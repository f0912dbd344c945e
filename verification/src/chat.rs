//! A chat room: who is in it, and who is told what.
//!
//! A newcomer is greeted and gives a name, a line without the white space
//! at its end. The name must hold at least one character, letters and
//! numbers only, and must not be the name of a member. The newcomer is
//! told who is in the room and then enters it, which the members are told.
//! What a member says goes to all the others, and so does the news that a
//! member has left.
use vstd::prelude::*;
use vstd::string::StringExecFns;
use crate::proxy::all_alphanumeric;
use crate::unicode::{
    alphanumeric, chars_of, is_alphanumeric, is_whitespace, string_of, whitespace,
};

verus! {

/// A text to send to a member.
pub struct Delivery {
    /// The name of the member to send to.
    pub to: String,
    /// The text to send.
    pub text: String,
}

/// A text to send to a member, as a mathematical value.
pub struct DeliveryView {
    pub to: Seq<char>,
    pub text: Seq<char>,
}

impl View for Delivery {
    type V = DeliveryView;

    open spec fn view(&self) -> DeliveryView {
        DeliveryView { to: self.to@, text: self.text@ }
    }
}

/// The deliveries of a list as mathematical values.
pub open spec fn delivery_views(deliveries: Seq<Delivery>) -> Seq<DeliveryView> {
    Seq::new(deliveries.len(), |i: int| deliveries[i]@)
}

/// A line without the white space at its end.
pub open spec fn trimmed(line: Seq<char>) -> Seq<char>
    decreases line.len(),
{
    if line.len() > 0 && whitespace(line.last()) {
        trimmed(line.drop_last())
    } else {
        line
    }
}

/// Whether a text can be a name: at least one character, letters and
/// numbers only.
pub open spec fn is_name(name: Seq<char>) -> bool {
    name.len() >= 1 && all_alphanumeric(name)
}

/// Whether a newcomer may enter a room under a name.
pub open spec fn admits(members: Seq<Seq<char>>, name: Seq<char>) -> bool {
    is_name(name) && !members.contains(name)
}

/// The names of some members, a space before each.
pub open spec fn listed(members: Seq<Seq<char>>) -> Seq<char>
    decreases members.len(),
{
    if members.len() == 0 {
        Seq::empty()
    } else {
        listed(members.drop_last()) + " "@ + members.last()
    }
}

/// What a newcomer is told: who is in the room.
pub open spec fn roster(members: Seq<Seq<char>>) -> Seq<char> {
    "* Connected users:"@ + listed(members) + "\n"@
}

/// What the members are told when `name` enters.
pub open spec fn entered(name: Seq<char>) -> Seq<char> {
    "* New chat member: "@ + name + "\n"@
}

/// What the others are told when `name` says `message`.
pub open spec fn said(name: Seq<char>, message: Seq<char>) -> Seq<char> {
    "["@ + name + "] "@ + message + "\n"@
}

/// What the others are told when `name` leaves.
pub open spec fn left(name: Seq<char>) -> Seq<char> {
    "* "@ + name + " is no longer among us\n"@
}

/// The members other than `name`, in order.
pub open spec fn others(members: Seq<Seq<char>>, name: Seq<char>) -> Seq<Seq<char>>
    decreases members.len(),
{
    if members.len() == 0 {
        Seq::empty()
    } else if members.last() == name {
        others(members.drop_last(), name)
    } else {
        others(members.drop_last(), name).push(members.last())
    }
}

/// `text`, to be sent to each of `members`.
pub open spec fn to_each(members: Seq<Seq<char>>, text: Seq<char>) -> Seq<DeliveryView> {
    Seq::new(members.len(), |i: int| DeliveryView { to: members[i], text })
}

/// The others of a room that does not hold `name` are all its members.
pub proof fn lemma_others_of_stranger(members: Seq<Seq<char>>, name: Seq<char>)
    requires
        !members.contains(name),
    ensures
        others(members, name) == members,
    decreases members.len(),
{
    if members.len() > 0 {
        let head = members.drop_last();
        assert forall|i: int| 0 <= i < head.len() implies head[i] != name by {
            assert(members[i] == head[i]);
        }
        assert(members.last() == members[members.len() - 1]);
        lemma_others_of_stranger(head, name);
        assert(head.push(members.last()) == members);
    }
}

/// No text for the others goes to `name`.
pub proof fn lemma_others_exclude(members: Seq<Seq<char>>, name: Seq<char>)
    ensures
        !others(members, name).contains(name),
    decreases members.len(),
{
    if members.len() > 0 {
        let head = members.drop_last();
        lemma_others_exclude(head, name);
        let o = others(members, name);
        if o.contains(name) {
            let i = choose|i: int| 0 <= i < o.len() && o[i] == name;
            if i < others(head, name).len() {
                assert(others(head, name)[i] == name);
            }
        }
    }
}

/// The first line sent to a newcomer.
pub fn greeting() -> (text: String)
    ensures
        text@ == "Welcome. What's your name?\n"@,
{
    String::from_str("Welcome. What's your name?\n")
}

/// The line sent to a newcomer whose name is refused.
pub fn refusal() -> (text: String)
    ensures
        text@ == "Invalid name\n"@,
{
    String::from_str("Invalid name\n")
}

/// A line without the white space at its end.
pub fn trim_end(line: &str) -> (out: String)
    ensures
        out@ == trimmed(line@),
{
    let chars = chars_of(line);
    let mut end: usize = chars.len();
    proof {
        assert(chars@.take(end as int) == chars@);
    }
    while end > 0 && is_whitespace(chars[end - 1])
        invariant
            end <= chars.len(),
            trimmed(chars@.take(end as int)) == trimmed(chars@),
        decreases end,
    {
        proof {
            assert(chars@.take(end as int).drop_last() == chars@.take(end - 1));
        }
        end -= 1;
    }
    let kept = vstd::slice::slice_subrange(chars.as_slice(), 0, end);
    proof {
        assert(kept@ == chars@.take(end as int));
    }
    string_of(kept)
}

/// Whether a text can be a name.
pub fn name_is_valid(name: &str) -> (r: bool)
    ensures
        r == is_name(name@),
{
    let chars = chars_of(name);
    if chars.len() < 1 {
        return false;
    }
    let mut i: usize = 0;
    while i < chars.len()
        invariant
            i <= chars.len(),
            chars@ == name@,
            forall|j: int| 0 <= j < i ==> alphanumeric_at(name@, j),
        decreases chars.len() - i,
    {
        if !is_alphanumeric(chars[i]) {
            assert(!alphanumeric_at(name@, i as int));
            return false;
        }
        i += 1;
    }
    assert forall|j: int| 0 <= j < name@.len() implies alphanumeric(
        #[trigger] name@[j],
    ) by {
        assert(alphanumeric_at(name@, j));
    }
    true
}

/// Whether character `j` of `s` is a letter or a number.
spec fn alphanumeric_at(s: Seq<char>, j: int) -> bool {
    alphanumeric(s[j])
}

/// The members of a chat room, by name, in the order in which they entered.
pub struct Room {
    members: Vec<String>,
}

impl View for Room {
    type V = Seq<Seq<char>>;

    closed spec fn view(&self) -> Seq<Seq<char>> {
        Seq::new(self.members@.len(), |i: int| self.members@[i]@)
    }
}

impl Room {
    /// A room without members.
    pub fn new() -> (room: Self)
        ensures
            room@ == Seq::<Seq<char>>::empty(),
    {
        let room = Room { members: Vec::new() };
        assert(room@ =~= Seq::<Seq<char>>::empty());
        room
    }

    /// The number of members.
    pub fn len(&self) -> (n: usize)
        ensures
            n == self@.len(),
    {
        self.members.len()
    }

    /// Whether `name` is the name of a member.
    pub fn has_member(&self, name: &str) -> (r: bool)
        ensures
            r == self@.contains(name@),
    {
        let mut i: usize = 0;
        while i < self.members.len()
            invariant
                i <= self.members.len(),
                forall|j: int| 0 <= j < i ==> self@[j] != name@,
            decreases self.members.len() - i,
        {
            if same_text(self.members[i].as_str(), name) {
                assert(self@[i as int] == name@);
                return true;
            }
            i += 1;
        }
        false
    }

    /// What a newcomer who gives the line `line` as name is to be told.
    /// `Ok` holds the name and the list of members, `Err` the refusal.
    pub fn welcome(&self, line: &str) -> (r: Result<(String, String), String>)
        ensures
            match r {
                Ok((name, text)) => admits(self@, trimmed(line@)) && name@ == trimmed(line@)
                    && text@ == roster(self@),
                Err(text) => !admits(self@, trimmed(line@)) && text@ == "Invalid name\n"@,
            },
    {
        let name = trim_end(line);
        if !name_is_valid(name.as_str()) || self.has_member(name.as_str()) {
            return Err(refusal());
        }
        let mut text = String::from_str("* Connected users:");
        let mut i: usize = 0;
        proof {
            assert(self@.take(0) == Seq::<Seq<char>>::empty());
            assert(text@ == "* Connected users:"@ + listed(self@.take(0)));
        }
        while i < self.members.len()
            invariant
                i <= self.members.len(),
                text@ == "* Connected users:"@ + listed(self@.take(i as int)),
            decreases self.members.len() - i,
        {
            proof {
                assert(self@.take(i + 1).drop_last() == self@.take(i as int));
                assert(self@.take(i + 1).last() == self.members[i as int]@);
            }
            let ghost before = text@;
            text.append(" ");
            text.append(self.members[i].as_str());
            proof {
                assert(text@ == "* Connected users:"@ + (listed(self@.take(i as int)) + " "@
                    + self.members[i as int]@));
            }
            i += 1;
        }
        text.append("\n");
        proof {
            assert(self@.take(self@.len() as int) == self@);
        }
        Ok((name, text))
    }

    /// `text`, to be sent to every member other than `name`.
    fn tell_others(&self, name: &str, text: &str) -> (out: Vec<Delivery>)
        ensures
            delivery_views(out@) == to_each(others(self@, name@), text@),
    {
        let mut out: Vec<Delivery> = Vec::new();
        let mut i: usize = 0;
        proof {
            assert(self@.take(0) == Seq::<Seq<char>>::empty());
            assert(delivery_views(out@) == to_each(others(self@.take(0), name@), text@));
        }
        while i < self.members.len()
            invariant
                i <= self.members.len(),
                delivery_views(out@) == to_each(others(self@.take(i as int), name@), text@),
            decreases self.members.len() - i,
        {
            proof {
                assert(self@.take(i + 1).drop_last() == self@.take(i as int));
                assert(self@.take(i + 1).last() == self.members[i as int]@);
            }
            if !same_text(self.members[i].as_str(), name) {
                let ghost before = delivery_views(out@);
                let ghost member = self.members[i as int]@;
                out.push(Delivery { to: self.members[i].clone(), text: String::from_str(text) });
                proof {
                    let told = others(self@.take(i as int), name@);
                    assert(others(self@.take(i + 1), name@) == told.push(member));
                    assert(delivery_views(out@) =~= before.push(
                        DeliveryView { to: member, text: text@ },
                    ));
                    assert(to_each(told.push(member), text@) =~= to_each(told, text@).push(
                        DeliveryView { to: member, text: text@ },
                    ));
                }
            }
            i += 1;
        }
        proof {
            assert(self@.take(self@.len() as int) == self@);
        }
        out
    }

    /// Lets a newcomer enter under `name` and gives what the members are
    /// to be told. `None`, and no change, when the room does not admit the
    /// name.
    pub fn enter(&mut self, name: &str) -> (r: Option<Vec<Delivery>>)
        ensures
            match r {
                Some(out) => admits(old(self)@, name@) && final(self)@ == old(self)@.push(name@)
                    && delivery_views(out@) == to_each(old(self)@, entered(name@)),
                None => !admits(old(self)@, name@) && final(self)@ == old(self)@,
            },
    {
        if !name_is_valid(name) || self.has_member(name) {
            return None;
        }
        let mut text = String::from_str("* New chat member: ");
        text.append(name);
        text.append("\n");
        let out = self.tell_others(name, text.as_str());
        proof {
            lemma_others_of_stranger(self@, name@);
        }
        self.members.push(String::from_str(name));
        assert(self@ == old(self)@.push(name@));
        Some(out)
    }

    /// What the others are to be told when the member `name` has sent the
    /// line `line`.
    pub fn say(&self, name: &str, line: &str) -> (out: Vec<Delivery>)
        ensures
            delivery_views(out@) == to_each(others(self@, name@), said(name@, trimmed(line@))),
    {
        let message = trim_end(line);
        let mut text = String::from_str("[");
        text.append(name);
        text.append("] ");
        text.append(message.as_str());
        text.append("\n");
        self.tell_others(name, text.as_str())
    }

    /// Takes the member `name` out of the room and gives what the others
    /// are to be told.
    pub fn leave(&mut self, name: &str) -> (out: Vec<Delivery>)
        ensures
            final(self)@ == others(old(self)@, name@),
            delivery_views(out@) == to_each(others(old(self)@, name@), left(name@)),
    {
        let mut text = String::from_str("* ");
        text.append(name);
        text.append(" is no longer among us\n");
        let out = self.tell_others(name, text.as_str());
        let mut kept: Vec<String> = Vec::new();
        let mut i: usize = 0;
        proof {
            assert(self@.take(0) == Seq::<Seq<char>>::empty());
        }
        while i < self.members.len()
            invariant
                i <= self.members.len(),
                *self == *old(self),
                Seq::new(kept@.len(), |k: int| kept@[k]@) == others(self@.take(i as int), name@),
            decreases self.members.len() - i,
        {
            proof {
                assert(self@.take(i + 1).drop_last() == self@.take(i as int));
                assert(self@.take(i + 1).last() == self.members[i as int]@);
            }
            if !same_text(self.members[i].as_str(), name) {
                kept.push(self.members[i].clone());
                proof {
                    assert(Seq::new(kept@.len(), |k: int| kept@[k]@) == others(
                        self@.take(i + 1),
                        name@,
                    ));
                }
            }
            i += 1;
        }
        proof {
            assert(self@.take(self@.len() as int) == self@);
        }
        self.members = kept;
        out
    }
}

/// Whether two texts are the same.
fn same_text(a: &str, b: &str) -> (r: bool)
    ensures
        r == (a@ == b@),
{
    let x = String::from_str(a);
    let y = String::from_str(b);
    x == y
}

} // verus!
