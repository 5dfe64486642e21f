//! Magnet links: `magnet:?` followed by `&`-separated `key=value` tokens that
//! give the file name (`dn`), the tracker (`tr`, percent-encoded) and the info
//! hash (`xt=urn:btih:<hex>`).
use vstd::prelude::*;
use vstd::utf8::{encode_utf8, is_char_boundary};
use crate::bittorent::{hex_bytes, hex_decode};
use crate::text::{chars_of, copy_chars, find_char, find_char_in, lemma_find_char, push_chars};

verus! {

/// A parsed magnet link.
#[derive(Debug)]
pub struct Magnet {
    pub file_name: String,
    pub tracker_url: String,
    pub info_hash: [u8; 20],
}

/// Why a magnet link does not parse.
#[derive(Debug, Clone, Copy, PartialEq, Eq)]
pub enum MagnetError {
    /// The link does not start with `magnet:?`.
    NotMagnet,
    /// A token has no `=`, an `xt` value has no `:`, or the key is unknown.
    UnknownToken,
    /// The `xt` value is not `urn:btih:` and a hash.
    NotBtih,
    /// The info hash is not hexadecimal.
    InvalidHash,
    /// The tracker's percent-encoding is broken.
    InvalidUrl,
    /// No file name.
    MissingName,
    /// No tracker.
    MissingTracker,
    /// No info hash.
    MissingHash,
    /// The info hash is not 20 bytes long.
    WrongHashLength,
}

/// The value of a hexadecimal digit of either case.
pub open spec fn hex_char_value(c: char) -> Option<int> {
    if '0' <= c <= '9' {
        Some(c as int - 48)
    } else if 'a' <= c <= 'f' {
        Some(c as int - 87)
    } else if 'A' <= c <= 'F' {
        Some(c as int - 55)
    } else {
        None
    }
}

/// What `u8::from_str_radix` gives for the two characters after a `%`: an
/// optional `+` and one digit, or two hexadecimal digits.
pub open spec fn hex_pair(c1: char, c2: char) -> Option<int> {
    if c1 == '+' {
        hex_char_value(c2)
    } else {
        match (hex_char_value(c1), hex_char_value(c2)) {
            (Some(h), Some(l)) => Some(h * 16 + l),
            _ => None,
        }
    }
}

/// Percent-decoding: each `%` and the two characters after it stand for the
/// character whose code is the byte that they give.
pub open spec fn url_decode(s: Seq<char>) -> Option<Seq<char>>
    decreases s.len(),
{
    if s.len() == 0 {
        Some(Seq::empty())
    } else if s[0] == '%' {
        if s.len() < 3 {
            None
        } else {
            match hex_pair(s[1], s[2]) {
                Some(b) => match url_decode(s.skip(3)) {
                    Some(r) => Some(seq![(b as u8) as char] + r),
                    None => None,
                },
                None => None,
            }
        }
    } else {
        match url_decode(s.drop_first()) {
            Some(r) => Some(seq![s[0]] + r),
            None => None,
        }
    }
}

/// The pieces of `s[pos..]` between the separators, as `str::split` gives them.
pub open spec fn split_from(s: Seq<char>, pos: int, sep: char) -> Seq<Seq<char>>
    decreases s.len() - pos,
{
    let k = find_char(s, pos, sep);
    if pos < 0 || pos > s.len() {
        Seq::empty()
    } else if k < pos || k >= s.len() {
        seq![s.subrange(pos, s.len() as int)]
    } else {
        seq![s.subrange(pos, k)] + split_from(s, k + 1, sep)
    }
}

/// The position of the last `c` in `s`, or -1.
pub open spec fn last_index(s: Seq<char>, c: char) -> int
    decreases s.len(),
{
    if s.len() == 0 {
        -1
    } else if s.last() == c {
        s.len() - 1
    } else {
        last_index(s.drop_last(), c)
    }
}

pub open spec fn magnet_prefix() -> Seq<char> {
    seq!['m', 'a', 'g', 'n', 'e', 't', ':', '?']
}

pub open spec fn btih_prefix() -> Seq<char> {
    seq!['u', 'r', 'n', ':', 'b', 't', 'i', 'h']
}

/// What the tokens read so far have set: file name, tracker, info hash.
pub struct MagnetFields {
    pub name: Seq<char>,
    pub tracker: Seq<char>,
    pub hash: Seq<u8>,
}

/// What one `key=value` token does.
pub open spec fn apply_token(st: MagnetFields, token: Seq<char>) -> Result<MagnetFields, MagnetError> {
    let k = find_char(token, 0, '=');
    if k >= token.len() {
        Err(MagnetError::UnknownToken)
    } else {
        let lhs = token.subrange(0, k);
        let rhs = token.subrange(k + 1, token.len() as int);
        if lhs == seq!['x', 't'] {
            let m = last_index(rhs, ':');
            if m < 0 {
                Err(MagnetError::UnknownToken)
            } else if rhs.subrange(0, m) != btih_prefix() {
                Err(MagnetError::NotBtih)
            } else {
                match hex_bytes(encode_utf8(rhs.subrange(m + 1, rhs.len() as int))) {
                    Some(h) => Ok(MagnetFields { hash: h, ..st }),
                    None => Err(MagnetError::InvalidHash),
                }
            }
        } else if lhs == seq!['d', 'n'] {
            Ok(MagnetFields { name: rhs, ..st })
        } else if lhs == seq!['t', 'r'] {
            match url_decode(rhs) {
                Some(u) => Ok(MagnetFields { tracker: u, ..st }),
                None => Err(MagnetError::InvalidUrl),
            }
        } else {
            Err(MagnetError::UnknownToken)
        }
    }
}

/// What the tokens do, one after the other, stopping at the first that fails.
pub open spec fn apply_tokens(st: MagnetFields, tokens: Seq<Seq<char>>) -> Result<
    MagnetFields,
    MagnetError,
>
    decreases tokens.len(),
{
    if tokens.len() == 0 {
        Ok(st)
    } else {
        match apply_token(st, tokens[0]) {
            Ok(st2) => apply_tokens(st2, tokens.drop_first()),
            Err(e) => Err(e),
        }
    }
}

/// What a magnet link holds: file name, tracker and info hash.
pub open spec fn parse_magnet(link: Seq<char>) -> Result<MagnetFields, MagnetError> {
    if link.len() < 8 || link.take(8) != magnet_prefix() {
        Err(MagnetError::NotMagnet)
    } else {
        let empty = MagnetFields { name: Seq::empty(), tracker: Seq::empty(), hash: Seq::empty() };
        match apply_tokens(empty, split_from(link, 8, '&')) {
            Err(e) => Err(e),
            Ok(st) => if st.name.len() == 0 {
                Err(MagnetError::MissingName)
            } else if st.tracker.len() == 0 {
                Err(MagnetError::MissingTracker)
            } else if st.hash.len() == 0 {
                Err(MagnetError::MissingHash)
            } else if st.hash.len() != 20 {
                Err(MagnetError::WrongHashLength)
            } else {
                Ok(st)
            },
        }
    }
}

/// The position of the last `c` in `s`.
fn last_index_of(s: &[char], c: char) -> (r: Option<usize>)
    ensures
        match r {
            Some(m) => last_index(s@, c) == m as int,
            None => last_index(s@, c) == -1,
        },
{
    let mut j = s.len();
    assert(s@.take(j as int) =~= s@);
    while j > 0
        invariant
            j <= s@.len(),
            last_index(s@, c) == last_index(s@.take(j as int), c),
        decreases j,
    {
        let ghost t = s@.take(j as int);
        assert(t.last() == s@[j - 1]);
        if s[j - 1] == c {
            return Some(j - 1);
        }
        assert(t.drop_last() =~= s@.take(j - 1));
        j = j - 1;
    }
    None
}

/// What the tokens of a link have set so far.
struct Fields {
    name: String,
    tracker: String,
    hash: Vec<u8>,
}

impl Fields {
    spec fn view(&self) -> MagnetFields {
        MagnetFields { name: self.name@, tracker: self.tracker@, hash: self.hash@ }
    }
}

/// Applies one `key=value` token.
fn apply_token_exec(st: &mut Fields, token: &[char]) -> (r: Result<(), MagnetError>)
    ensures
        match r {
            Ok(()) => apply_token(old(st).view(), token@) == Ok::<MagnetFields, MagnetError>(
                final(st).view(),
            ),
            Err(e) => apply_token(old(st).view(), token@) == Err::<MagnetFields, MagnetError>(e),
        },
{
    let k = find_char_in(token, 0, '=');
    proof {
        lemma_find_char(token@, 0, '=');
    }
    if k >= token.len() {
        return Err(MagnetError::UnknownToken);
    }
    let lhs = copy_chars(token, 0, k);
    let rhs = copy_chars(token, k + 1, token.len());
    assert(lhs@.len() == k);
    assert(k >= 1 ==> lhs@[0] == token@[0]);
    assert(k >= 2 ==> lhs@[1] == token@[1]);
    let is_xt = k == 2 && token[0] == 'x' && token[1] == 't';
    let is_dn = k == 2 && token[0] == 'd' && token[1] == 'n';
    let is_tr = k == 2 && token[0] == 't' && token[1] == 'r';
    assert(is_xt == (lhs@ == seq!['x', 't'])) by {
        if lhs@ == seq!['x', 't'] {
            assert(lhs@[0] == 'x' && lhs@[1] == 't');
        }
        if is_xt {
            assert(lhs@ =~= seq!['x', 't']);
        }
    }
    assert(is_dn == (lhs@ == seq!['d', 'n'])) by {
        if lhs@ == seq!['d', 'n'] {
            assert(lhs@[0] == 'd' && lhs@[1] == 'n');
        }
        if is_dn {
            assert(lhs@ =~= seq!['d', 'n']);
        }
    }
    assert(is_tr == (lhs@ == seq!['t', 'r'])) by {
        if lhs@ == seq!['t', 'r'] {
            assert(lhs@[0] == 't' && lhs@[1] == 'r');
        }
        if is_tr {
            assert(lhs@ =~= seq!['t', 'r']);
        }
    }
    if is_xt {
        match last_index_of(rhs.as_slice(), ':') {
            None => Err(MagnetError::UnknownToken),
            Some(m) => {
                proof {
                    lemma_last_index(rhs@, ':');
                }
                let sig_ok = m == 8 && rhs[0] == 'u' && rhs[1] == 'r' && rhs[2] == 'n' && rhs[3]
                    == ':' && rhs[4] == 'b' && rhs[5] == 't' && rhs[6] == 'i' && rhs[7] == 'h';
                assert(sig_ok == (rhs@.subrange(0, m as int) == btih_prefix())) by {
                    let sig = rhs@.subrange(0, m as int);
                    if sig == btih_prefix() {
                        assert(sig.len() == 8);
                        assert(sig[0] == 'u' && sig[1] == 'r' && sig[2] == 'n' && sig[3] == ':');
                        assert(sig[4] == 'b' && sig[5] == 't' && sig[6] == 'i' && sig[7] == 'h');
                    }
                    if sig_ok {
                        assert(sig =~= btih_prefix());
                    }
                }
                if !sig_ok {
                    return Err(MagnetError::NotBtih);
                }
                let hex_chars = copy_chars(rhs.as_slice(), m + 1, rhs.len());
                let mut text = String::new();
                push_chars(&mut text, hex_chars.as_slice());
                assert(text@ =~= rhs@.subrange(m + 1, rhs@.len() as int));
                match hex_decode(text.as_str()) {
                    Ok(h) => {
                        st.hash = h;
                        Ok(())
                    },
                    Err(_) => Err(MagnetError::InvalidHash),
                }
            },
        }
    } else if is_dn {
        let mut name = String::new();
        push_chars(&mut name, rhs.as_slice());
        assert(name@ =~= rhs@);
        st.name = name;
        Ok(())
    } else if is_tr {
        let mut text = String::new();
        push_chars(&mut text, rhs.as_slice());
        assert(text@ =~= rhs@);
        match decode_url(text.as_str()) {
            Some(u) => {
                st.tracker = u;
                Ok(())
            },
            None => Err(MagnetError::InvalidUrl),
        }
    } else {
        Err(MagnetError::UnknownToken)
    }
}

pub proof fn lemma_last_index(s: Seq<char>, c: char)
    ensures
        -1 <= last_index(s, c) < s.len(),
        last_index(s, c) >= 0 ==> s[last_index(s, c)] == c,
    decreases s.len(),
{
    if s.len() > 0 && s.last() != c {
        lemma_last_index(s.drop_last(), c);
    }
}

impl Magnet {
    /// Parses a magnet link.
    ///
    /// The link must hold at least 8 bytes, and its 8th byte must end a
    /// character: slicing off its first 8 bytes must not panic.
    pub fn parse(link: String) -> (r: Result<Magnet, MagnetError>)
        requires
            encode_utf8(link@).len() >= 8,
            is_char_boundary(encode_utf8(link@), 8),
        ensures
            match r {
                Ok(m) => parse_magnet(link@) == Ok::<MagnetFields, MagnetError>(
                    MagnetFields { name: m.file_name@, tracker: m.tracker_url@, hash: m.info_hash@ },
                ),
                Err(e) => parse_magnet(link@) == Err::<MagnetFields, MagnetError>(e),
            },
    {
        let s = chars_of(link.as_str());
        let prefix_ok = s.len() >= 8 && s[0] == 'm' && s[1] == 'a' && s[2] == 'g' && s[3] == 'n'
            && s[4] == 'e' && s[5] == 't' && s[6] == ':' && s[7] == '?';
        assert(prefix_ok == (s@.len() >= 8 && s@.take(8) == magnet_prefix())) by {
            if s@.len() >= 8 && s@.take(8) == magnet_prefix() {
                let t = s@.take(8);
                assert(t[0] == 'm' && t[1] == 'a' && t[2] == 'g' && t[3] == 'n');
                assert(t[4] == 'e' && t[5] == 't' && t[6] == ':' && t[7] == '?');
            }
            if prefix_ok {
                assert(s@.take(8) =~= magnet_prefix());
            }
        }
        if !prefix_ok {
            return Err(MagnetError::NotMagnet);
        }
        let mut st = Fields { name: String::new(), tracker: String::new(), hash: Vec::new() };
        let ghost empty = MagnetFields {
            name: Seq::empty(),
            tracker: Seq::empty(),
            hash: Seq::empty(),
        };
        assert(st.view() == empty) by {
            assert(st.hash@ =~= Seq::<u8>::empty());
        }
        let mut pos: usize = 8;
        let mut more = true;
        while more
            invariant
                8 <= pos <= s@.len(),
                s@ == link@,
                s@.len() >= 8 && s@.take(8) == magnet_prefix(),
                empty == (MagnetFields {
                    name: Seq::empty(),
                    tracker: Seq::empty(),
                    hash: Seq::empty(),
                }),
                more ==> apply_tokens(empty, split_from(s@, 8, '&')) == apply_tokens(
                    st.view(),
                    split_from(s@, pos as int, '&'),
                ),
                !more ==> apply_tokens(empty, split_from(s@, 8, '&')) == Ok::<
                    MagnetFields,
                    MagnetError,
                >(st.view()),
            decreases (if more {
                s@.len() - pos + 1
            } else {
                0
            }),
        {
            let k = find_char_in(s.as_slice(), pos, '&');
            proof {
                lemma_find_char(s@, pos as int, '&');
            }
            let token = copy_chars(s.as_slice(), pos, k);
            let ghost before = st.view();
            proof {
                let tokens = split_from(s@, pos as int, '&');
                assert(tokens[0] == token@);
                if k < s@.len() {
                    assert(tokens.drop_first() == split_from(s@, k + 1, '&'));
                } else {
                    assert(tokens.drop_first() =~= Seq::<Seq<char>>::empty());
                }
            }
            match apply_token_exec(&mut st, token.as_slice()) {
                Err(e) => {
                    proof {
                        let tokens = split_from(s@, pos as int, '&');
                        assert(apply_tokens(before, tokens) == Err::<MagnetFields, MagnetError>(e));
                    }
                    return Err(e);
                },
                Ok(()) => {
                    proof {
                        let tokens = split_from(s@, pos as int, '&');
                        assert(apply_tokens(before, tokens) == apply_tokens(
                            st.view(),
                            tokens.drop_first(),
                        ));
                        if k >= s@.len() {
                            assert(apply_tokens(st.view(), tokens.drop_first()) == Ok::<
                                MagnetFields,
                                MagnetError,
                            >(st.view()));
                        }
                    }
                },
            }
            if k >= s.len() {
                more = false;
            } else {
                pos = k + 1;
            }
        }
        if st.name.as_str().is_empty() {
            return Err(MagnetError::MissingName);
        }
        if st.tracker.as_str().is_empty() {
            return Err(MagnetError::MissingTracker);
        }
        if st.hash.len() == 0 {
            return Err(MagnetError::MissingHash);
        }
        if st.hash.len() != 20 {
            return Err(MagnetError::WrongHashLength);
        }
        let mut info_hash = [0u8; 20];
        let mut i: usize = 0;
        while i < 20
            invariant
                i <= 20,
                st.hash@.len() == 20,
                forall|j: int| 0 <= j < i ==> info_hash@[j] == st.hash@[j],
            decreases 20 - i,
        {
            info_hash[i] = st.hash[i];
            i = i + 1;
        }
        assert(info_hash@ =~= st.hash@);
        Ok(Magnet { file_name: st.name, tracker_url: st.tracker, info_hash })
    }
}

/// The value of a hexadecimal digit of either case.
fn hex_char(c: char) -> (r: Option<u8>)
    ensures
        match r {
            Some(v) => hex_char_value(c) == Some(v as int),
            None => hex_char_value(c) is None,
        },
{
    if '0' <= c && c <= '9' {
        Some(((c as u32) - 48) as u8)
    } else if 'a' <= c && c <= 'f' {
        Some(((c as u32) - 87) as u8)
    } else if 'A' <= c && c <= 'F' {
        Some(((c as u32) - 55) as u8)
    } else {
        None
    }
}

/// Percent-decodes a tracker URL.
pub fn decode_url(url: &str) -> (r: Option<String>)
    ensures
        match r {
            Some(u) => url_decode(url@) == Some(u@),
            None => url_decode(url@) is None,
        },
{
    let s = chars_of(url);
    let mut out: Vec<char> = Vec::new();
    let mut i: usize = 0;
    assert(s@.skip(0) =~= s@);
    while i < s.len()
        invariant
            i <= s@.len(),
            s@ == url@,
            url_decode(s@) == (match url_decode(s@.skip(i as int)) {
                Some(r) => Some(out@ + r),
                None => None::<Seq<char>>,
            }),
        decreases s@.len() - i,
    {
        let ghost rest = s@.skip(i as int);
        if s[i] == '%' {
            if s.len() - i < 3 {
                assert(url_decode(rest) is None);
                return None;
            }
            let c1 = s[i + 1];
            let c2 = s[i + 2];
            assert(rest[1] == c1 && rest[2] == c2);
            let value: Option<u8> = if c1 == '+' {
                hex_char(c2)
            } else {
                match (hex_char(c1), hex_char(c2)) {
                    (Some(h), Some(l)) => Some(h * 16 + l),
                    _ => None,
                }
            };
            match value {
                Some(b) => {
                    out.push(b as char);
                    assert(rest.skip(3) =~= s@.skip(i + 3));
                    i = i + 3;
                },
                None => {
                    assert(hex_pair(rest[1], rest[2]) is None);
                    assert(url_decode(rest) is None);
                    return None;
                },
            }
        } else {
            out.push(s[i]);
            assert(rest.drop_first() =~= s@.skip(i + 1));
            i = i + 1;
        }
        proof {
            match url_decode(s@.skip(i as int)) {
                Some(r) => {
                    assert(out@.drop_last() + (seq![out@.last()] + r) =~= out@ + r);
                },
                None => {},
            }
        }
    }
    assert(s@.skip(i as int) =~= Seq::<char>::empty());
    assert(out@ + Seq::<char>::empty() =~= out@);
    let mut u = String::new();
    push_chars(&mut u, out.as_slice());
    assert(u@ =~= out@);
    Some(u)
}

} // verus!
