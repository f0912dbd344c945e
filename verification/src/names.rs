//! Names of files and directories in the versioned store.
//!
//! A name is a path: parts with slashes between them. It may hold ASCII
//! letters and digits, dots, underscores, hyphens and slashes, must not be
//! empty, and must not hold two slashes in a row. The name of a file must
//! not end in a slash.
use vstd::prelude::*;

verus! {

/// The slash between the parts of a name.
pub const SLASH: u8 = 0x2f;

/// Whether a character may stand in a name: an ASCII letter or digit, a
/// dot, an underscore, a hyphen or a slash.
pub open spec fn is_legal_char(c: char) -> bool {
    ||| 'a' <= c <= 'z'
    ||| 'A' <= c <= 'Z'
    ||| '0' <= c <= '9'
    ||| c == '.'
    ||| c == '_'
    ||| c == '-'
    ||| c == '/'
}

/// Whether a name holds two slashes in a row.
pub open spec fn has_empty_part(n: Seq<char>) -> bool {
    exists|i: int| 0 <= i && i + 1 < n.len() && #[trigger] n[i] == '/' && n[i + 1] == '/'
}

/// Whether a name holds a character that may not stand in a name.
pub open spec fn has_illegal_char(n: Seq<char>) -> bool {
    exists|i: int| 0 <= i < n.len() && !is_legal_char(#[trigger] n[i])
}

/// Whether a name is refused. It is when it is empty, holds two slashes in
/// a row or a character that may not stand in a name, or names a file and
/// ends in a slash.
pub open spec fn name_is_illegal(n: Seq<char>, is_file: bool) -> bool {
    ||| has_empty_part(n)
    ||| (is_file && n.len() > 0 && n.last() == '/')
    ||| n.len() == 0
    ||| has_illegal_char(n)
}

/// Whether a byte is a character that may stand in a name.
pub open spec fn is_legal_byte(b: u8) -> bool {
    ||| 0x61 <= b <= 0x7a
    ||| 0x41 <= b <= 0x5a
    ||| 0x30 <= b <= 0x39
    ||| b == 0x2e
    ||| b == 0x5f
    ||| b == 0x2d
    ||| b == 0x2f
}

/// Whether a name, given as its bytes, is refused.
pub open spec fn path_is_illegal(n: Seq<u8>, is_file: bool) -> bool {
    ||| exists|i: int| 0 <= i && i + 1 < n.len() && #[trigger] n[i] == SLASH && n[i + 1] == SLASH
    ||| (is_file && n.len() > 0 && n.last() == SLASH)
    ||| n.len() == 0
    ||| exists|i: int| 0 <= i < n.len() && !is_legal_byte(#[trigger] n[i])
}

/// For a name of ASCII characters it is the same to judge the characters
/// or the bytes.
pub proof fn lemma_ascii_name(n: Seq<char>, bytes: Seq<u8>, is_file: bool)
    requires
        bytes.len() == n.len(),
        forall|i: int| 0 <= i < n.len() ==> '\0' <= #[trigger] n[i] <= '\u{7f}' && bytes[i] == n[i] as u8,
    ensures
        name_is_illegal(n, is_file) == path_is_illegal(bytes, is_file),
{
    assert forall|i: int| 0 <= i < n.len() implies is_legal_char(n[i]) == is_legal_byte(
        #[trigger] bytes[i],
    ) && (n[i] == '/') == (bytes[i] == SLASH) by {
        assert('\0' <= n[i] <= '\u{7f}');
    }
    if has_empty_part(n) {
        let i = choose|i: int| 0 <= i && i + 1 < n.len() && #[trigger] n[i] == '/' && n[i + 1] == '/';
        assert(bytes[i] == SLASH && bytes[i + 1] == SLASH);
    }
    if has_illegal_char(n) {
        let i = choose|i: int| 0 <= i < n.len() && !is_legal_char(#[trigger] n[i]);
        assert(!is_legal_byte(bytes[i]));
    }
    if exists|i: int| 0 <= i && i + 1 < bytes.len() && #[trigger] bytes[i] == SLASH && bytes[i + 1] == SLASH {
        let i = choose|i: int|
            0 <= i && i + 1 < bytes.len() && #[trigger] bytes[i] == SLASH && bytes[i + 1] == SLASH;
        assert(n[i] == '/' && n[i + 1] == '/');
    }
    if exists|i: int| 0 <= i < bytes.len() && !is_legal_byte(#[trigger] bytes[i]) {
        let i = choose|i: int| 0 <= i < bytes.len() && !is_legal_byte(#[trigger] bytes[i]);
        assert(!is_legal_char(n[i]));
    }
}

/// Whether the name `n`, given as its bytes, is refused.
pub fn is_path_illegal(n: &[u8], is_file: bool) -> (r: bool)
    ensures
        r == path_is_illegal(n@, is_file),
{
    let len = n.len();
    if len == 0 {
        return true;
    }
    if is_file && n[len - 1] == SLASH {
        return true;
    }
    let mut i: usize = 0;
    while i < len
        invariant
            len == n.len(),
            i <= len,
            forall|j: int| 0 <= j < i ==> is_legal_byte(#[trigger] n[j]),
            forall|j: int| 0 <= j < i && j + 1 < len ==> !(#[trigger] n[j] == SLASH && n[j + 1] == SLASH),
        decreases len - i,
    {
        let b: u8 = n[i];
        let legal = (0x61 <= b && b <= 0x7a) || (0x41 <= b && b <= 0x5a) || (0x30 <= b && b
            <= 0x39) || b == 0x2e || b == 0x5f || b == 0x2d || b == 0x2f;
        if !legal {
            return true;
        }
        if b == SLASH && i + 1 < len && n[i + 1] == SLASH {
            return true;
        }
        i += 1;
    }
    false
}

/// Whether the name `n` is refused, as the name of a file if `is_file` and
/// as the name of a directory if not.
pub fn is_name_illegal(n: &str, is_file: bool) -> (r: bool)
    ensures
        r == name_is_illegal(n@, is_file),
{
    if !n.is_ascii() {
        proof {
            let i = choose|i: int| 0 <= i < n@.len() && !('\0' <= #[trigger] n@[i] <= '\u{7f}');
            assert(!is_legal_char(n@[i]));
        }
        return true;
    }
    let bytes = n.as_bytes();
    proof {
        vstd::string::is_ascii_spec_bytes(n);
        lemma_ascii_name(n@, bytes@, is_file);
    }
    is_path_illegal(bytes, is_file)
}

} // verus!
