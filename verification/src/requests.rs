//! The requests to the versioned store, line by line.
//!
//! A request is a line of words with single spaces between them. The first
//! word is the command, in letters of either case: `HELP`, `LIST` with a
//! directory, `GET` with a file and, if wanted, a revision, `PUT` with a
//! file and the number of bytes that follow the line. Every answer ends in
//! a line `READY`. Any other line ends the connection.
use vstd::prelude::*;
use vstd::string::StringSliceAdditionalSpecFns;
use crate::bytemap::{copy_bytes, same_bytes};
use crate::names::{is_path_illegal, path_is_illegal, SLASH};
use crate::number::{decimal, number_upto, parse_number, write_decimal};
use crate::storage::{
    blocked, is_listing, key_of, listed_views, tree_after_put, versions_of, Listed, ListedView,
    NodeView, Storage,
};
use crate::text::{lemma_pieces_len, pieces, split};

verus! {

/// The space between the words of a request.
pub const SPACE: u8 = 0x20;

/// What is to be done about a request.
pub enum Action {
    /// Send the text and read the next request.
    Reply(Vec<u8>),
    /// Send the text and end the connection.
    Close(Vec<u8>),
    /// Read `size` bytes, store them under `key` and send what storing
    /// gives.
    Receive { key: Vec<u8>, size: usize },
}

/// What is to be done about a request, as a mathematical value.
pub enum ActionView {
    Reply(Seq<u8>),
    Close(Seq<u8>),
    Receive { key: Seq<u8>, size: usize },
}

impl View for Action {
    type V = ActionView;

    open spec fn view(&self) -> ActionView {
        match *self {
            Action::Reply(text) => ActionView::Reply(text@),
            Action::Close(text) => ActionView::Close(text@),
            Action::Receive { key, size } => ActionView::Receive { key: key@, size },
        }
    }
}

/// A byte with a small ASCII letter made capital.
pub open spec fn upper(b: u8) -> u8 {
    if 0x61 <= b <= 0x7a {
        (b - 0x20) as u8
    } else {
        b
    }
}

/// A word with its small ASCII letters made capital.
pub open spec fn uppercase(word: Seq<u8>) -> Seq<u8> {
    Seq::new(word.len(), |i: int| upper(word[i]))
}

/// A text with the line `READY` after it.
pub open spec fn ready(text: Seq<u8>) -> Seq<u8> {
    text + "\nREADY\n".spec_bytes()
}

/// The line of a listing for one name.
pub open spec fn listed_line(line: ListedView) -> Seq<u8> {
    match line.versions {
        Some(n) => "\n".spec_bytes() + line.name + " r".spec_bytes() + decimal(n as nat),
        None => "\n".spec_bytes() + line.name + "/ DIR".spec_bytes(),
    }
}

/// The lines of a listing, one after the other.
pub open spec fn listed_lines(lines: Seq<ListedView>) -> Seq<u8>
    decreases lines.len(),
{
    if lines.len() == 0 {
        Seq::empty()
    } else {
        listed_lines(lines.drop_last()) + listed_line(lines.last())
    }
}

/// The answer that lists a directory: the number of names, and a line for
/// each.
pub open spec fn listing_text(lines: Seq<ListedView>) -> Seq<u8> {
    "OK ".spec_bytes() + decimal(lines.len()) + listed_lines(lines)
}

/// The answer that hands out a version of a file: its length, and its
/// bytes.
pub open spec fn file_text(data: Seq<u8>) -> Seq<u8> {
    "OK ".spec_bytes() + decimal(data.len()) + "\n".spec_bytes() + data + "READY\n".spec_bytes()
}

/// The answer to a line that is no request.
pub open spec fn unknown_text(command: Seq<u8>, words: nat) -> Seq<u8> {
    "ERR unknown command `".spec_bytes() + command
        + "` or incorrect number of arguments (".spec_bytes() + decimal(words) + ")\n".spec_bytes()
}

/// The answer after a file has been stored as revision `revision`.
pub open spec fn stored_text(revision: nat) -> Seq<u8> {
    ready("OK r".spec_bytes() + decimal(revision))
}

/// The number that a revision word names: the word is taken without its
/// first byte, which is there for the letter `r`.
pub open spec fn revision_of(word: Seq<u8>) -> Option<nat> {
    if word.len() == 0 {
        None
    } else {
        number_upto(word.skip(1), usize::MAX as nat)
    }
}

/// The version of a file that a request asks for: the one that the
/// revision word names, counted from 1, or the latest where the request has
/// no such word.
pub open spec fn wanted(versions: Seq<Seq<u8>>, word: Option<Seq<u8>>) -> Option<Seq<u8>> {
    let number = match word {
        Some(w) => revision_of(w),
        None => Some(versions.len()),
    };
    match number {
        Some(n) => if 1 <= n <= versions.len() {
            Some(versions[n - 1])
        } else {
            None
        },
        None => None,
    }
}

/// Whether `action` is what is to be done about the request `line`.
pub open spec fn answers(tree: Map<Seq<u8>, NodeView>, line: Seq<u8>, action: ActionView) -> bool {
    let words = pieces(line, SPACE);
    let command = uppercase(words[0]);
    if command == "HELP".spec_bytes() {
        action == ActionView::Reply(ready("OK you should know".spec_bytes()))
    } else if command == "LIST".spec_bytes() && words.len() == 2 {
        if path_is_illegal(words[1], false) {
            action == ActionView::Reply(ready("ERR invalid directory".spec_bytes()))
        } else {
            exists|lines: Seq<ListedView>|
                is_listing(tree, key_of(words[1]), lines) && action == ActionView::Reply(
                    ready(#[trigger] listing_text(lines)),
                )
        }
    } else if command == "GET".spec_bytes() && (words.len() == 2 || words.len() == 3) {
        let found = match versions_of(tree, key_of(words[1])) {
            Some(versions) => wanted(
                versions,
                if words.len() == 3 {
                    Some(words[2])
                } else {
                    None
                },
            ),
            None => None,
        };
        if path_is_illegal(words[1], true) {
            action == ActionView::Reply(ready("ERR invalid file".spec_bytes()))
        } else {
            match found {
                Some(data) => action == ActionView::Reply(file_text(data)),
                None => action == ActionView::Reply(
                    ready("ERR file or version not found".spec_bytes()),
                ),
            }
        }
    } else if command == "PUT".spec_bytes() && words.len() == 3 {
        if path_is_illegal(words[1], true) {
            action == ActionView::Reply(ready("ERR invalid file".spec_bytes()))
        } else {
            match number_upto(words[2], usize::MAX as nat) {
                Some(size) => if blocked(tree, key_of(words[1])) {
                    action == ActionView::Reply(ready("ERR invalid file".spec_bytes()))
                } else {
                    action == ActionView::Receive { key: key_of(words[1]), size: size as usize }
                },
                None => action == ActionView::Reply(ready("ERR invalid size".spec_bytes())),
            }
        }
    } else {
        action == ActionView::Close(unknown_text(command, words.len()))
    }
}

/// The first line that a connection gets.
pub fn greeting() -> (text: Vec<u8>)
    ensures
        text@ == "READY\n".spec_bytes(),
{
    copy_bytes("READY\n".as_bytes())
}

/// Appends the bytes of `text`.
fn push_text(out: &mut Vec<u8>, text: &str)
    ensures
        final(out)@ == old(out)@ + text.spec_bytes(),
{
    out.extend_from_slice(text.as_bytes());
}

/// Appends `bytes`.
fn push_bytes(out: &mut Vec<u8>, bytes: &[u8])
    ensures
        final(out)@ == old(out)@ + bytes@,
{
    out.extend_from_slice(bytes);
}

/// The text `text` with the line `READY` after it.
fn reply(text: &str) -> (a: Action)
    ensures
        a@ == ActionView::Reply(ready(text.spec_bytes())),
{
    let mut out: Vec<u8> = Vec::new();
    push_text(&mut out, text);
    push_text(&mut out, "\nREADY\n");
    assert(out@ == ready(text.spec_bytes()));
    Action::Reply(out)
}

/// A word with its small ASCII letters made capital.
pub fn to_uppercase(word: &[u8]) -> (out: Vec<u8>)
    ensures
        out@ == uppercase(word@),
{
    let mut out: Vec<u8> = Vec::new();
    let mut i: usize = 0;
    while i < word.len()
        invariant
            i <= word.len(),
            out@ == uppercase(word@.take(i as int)),
        decreases word.len() - i,
    {
        let b = word[i];
        if 0x61 <= b && b <= 0x7a {
            out.push(b - 0x20);
        } else {
            out.push(b);
        }
        proof {
            assert(out@ =~= uppercase(word@.take(i + 1)));
        }
        i += 1;
    }
    proof {
        assert(word@.take(word.len() as int) == word@);
    }
    out
}

/// The key of a name.
pub fn key_from(name: &[u8]) -> (key: Vec<u8>)
    ensures
        key@ == key_of(name@),
{
    let start: usize = if name.len() > 0 && name[0] == SLASH {
        1
    } else {
        0
    };
    let end: usize = if name.len() > start && name[name.len() - 1] == SLASH {
        name.len() - 1
    } else {
        name.len()
    };
    let key = copy_bytes(vstd::slice::slice_subrange(name, start, end));
    assert(key@ =~= key_of(name@));
    key
}

/// The text of a listing.
fn listing(lines: &Vec<Listed>) -> (out: Vec<u8>)
    ensures
        out@ == listing_text(listed_views(lines@)),
{
    let ghost all = listed_views(lines@);
    let mut out: Vec<u8> = Vec::new();
    push_text(&mut out, "OK ");
    write_decimal(lines.len(), &mut out);
    let mut i: usize = 0;
    proof {
        assert(all.take(0) == Seq::<ListedView>::empty());
        assert(out@ == "OK ".spec_bytes() + decimal(all.len()) + listed_lines(all.take(0)));
    }
    while i < lines.len()
        invariant
            i <= lines.len(),
            all == listed_views(lines@),
            out@ == "OK ".spec_bytes() + decimal(all.len()) + listed_lines(all.take(i as int)),
        decreases lines.len() - i,
    {
        let ghost before = out@;
        proof {
            assert(all.take(i + 1).drop_last() == all.take(i as int));
            assert(all.take(i + 1).last() == lines[i as int]@);
        }
        push_text(&mut out, "\n");
        push_bytes(&mut out, lines[i].name.as_slice());
        match lines[i].versions {
            Some(n) => {
                push_text(&mut out, " r");
                write_decimal(n, &mut out);
            },
            None => {
                push_text(&mut out, "/ DIR");
            },
        }
        proof {
            assert(out@ == before + listed_line(lines[i as int]@));
        }
        i += 1;
    }
    proof {
        assert(all.take(lines.len() as int) == all);
    }
    out
}

impl Storage {
    /// What is to be done about the request `line`, a line without the
    /// newline at its end.
    pub fn request(&self, line: &[u8]) -> (action: Action)
        requires
            self.wf(),
        ensures
            answers(self@, line@, action@),
    {
        let words = split(line, SPACE);
        let ghost w = pieces(line@, SPACE);
        proof {
            lemma_pieces_len(line@, SPACE);
            assert(forall|i: int| 0 <= i < words.len() ==> w[i] == (#[trigger] words[i])@);
        }
        let count = words.len();
        let command = to_uppercase(words[0].as_slice());
        if same_bytes(command.as_slice(), "HELP".as_bytes()) {
            return reply("OK you should know");
        }
        if same_bytes(command.as_slice(), "LIST".as_bytes()) && count == 2 {
            let name = words[1].as_slice();
            if is_path_illegal(name, false) {
                return reply("ERR invalid directory");
            }
            let key = key_from(name);
            let lines = self.list(key.as_slice());
            let mut out = listing(&lines);
            push_text(&mut out, "\nREADY\n");
            proof {
                assert(out@ == ready(listing_text(listed_views(lines@))));
            }
            return Action::Reply(out);
        }
        if same_bytes(command.as_slice(), "GET".as_bytes()) && (count == 2 || count == 3) {
            let name = words[1].as_slice();
            if is_path_illegal(name, true) {
                return reply("ERR invalid file");
            }
            let key = key_from(name);
            match self.versions(key.as_slice()) {
                Some(versions) => {
                    let ghost held = Seq::new(versions@.len(), |i: int| versions@[i]@);
                    let number: Option<usize> = if count == 3 {
                        let word = words[2].as_slice();
                        if word.len() == 0 {
                            None
                        } else {
                            let digits = vstd::slice::slice_subrange(word, 1, word.len());
                            assert(digits@ == word@.skip(1));
                            parse_number(digits, usize::MAX)
                        }
                    } else {
                        Some(versions.len())
                    };
                    match number {
                        Some(n) => {
                            if 1 <= n && n <= versions.len() {
                                let data = versions[n - 1].as_slice();
                                let mut out: Vec<u8> = Vec::new();
                                push_text(&mut out, "OK ");
                                write_decimal(data.len(), &mut out);
                                push_text(&mut out, "\n");
                                push_bytes(&mut out, data);
                                push_text(&mut out, "READY\n");
                                proof {
                                    assert(held[n - 1] == data@);
                                    assert(out@ == file_text(data@));
                                }
                                Action::Reply(out)
                            } else {
                                reply("ERR file or version not found")
                            }
                        },
                        None => reply("ERR file or version not found"),
                    }
                },
                None => reply("ERR file or version not found"),
            }
        } else if same_bytes(command.as_slice(), "PUT".as_bytes()) && count == 3 {
            let name = words[1].as_slice();
            if is_path_illegal(name, true) {
                return reply("ERR invalid file");
            }
            match parse_number(words[2].as_slice(), usize::MAX) {
                Some(size) => {
                    let key = key_from(name);
                    if self.is_blocked(key.as_slice()) {
                        reply("ERR invalid file")
                    } else {
                        Action::Receive { key, size }
                    }
                },
                None => reply("ERR invalid size"),
            }
        } else {
            let mut out: Vec<u8> = Vec::new();
            push_text(&mut out, "ERR unknown command `");
            push_bytes(&mut out, command.as_slice());
            push_text(&mut out, "` or incorrect number of arguments (");
            write_decimal(count, &mut out);
            push_text(&mut out, ")\n");
            proof {
                assert(out@ == unknown_text(command@, count as nat));
            }
            Action::Close(out)
        }
    }

    /// Stores `data` under `key`, as `put` does, and gives the answer to
    /// send. Where no file can be stored under `key`, nothing is stored, and
    /// the answer says so.
    pub fn store(&mut self, key: &[u8], data: Vec<u8>) -> (text: Vec<u8>)
        requires
            old(self).wf(),
        ensures
            final(self).wf(),
            blocked(old(self)@, key@) ==> final(self)@ == old(self)@ && text@ == ready(
                "ERR invalid file".spec_bytes(),
            ),
            !blocked(old(self)@, key@) ==> final(self)@ == tree_after_put(old(self)@, key@, data@),
            !blocked(old(self)@, key@) ==> (versions_of(final(self)@, key@) matches Some(v)
                && text@ == stored_text(v.len())),
    {
        let mut out: Vec<u8> = Vec::new();
        if self.is_blocked(key) {
            push_text(&mut out, "ERR invalid file");
        } else {
            let revision = self.put(key, data);
            push_text(&mut out, "OK r");
            write_decimal(revision, &mut out);
        }
        push_text(&mut out, "\nREADY\n");
        out
    }
}

} // verus!
