//! Wide (UTF-16) strings, command-line fallbacks, file attributes and lock tracking.

use vstd::prelude::*;
use crate::text::{chars_of, is_whitespace, is_ws, push_char, trim_start};

verus! {

// ---------------------------------------------------------------------------
// UTF-16
// ---------------------------------------------------------------------------

/// The UTF-16 code units of one character.
pub open spec fn utf16_of(c: char) -> Seq<u16> {
    let u = c as u32;
    if u < 0x10000 {
        seq![u as u16]
    } else {
        let v = u - 0x10000;
        seq![(0xD800 + v / 1024) as u16, (0xDC00 + v % 1024) as u16]
    }
}

/// The UTF-16 encoding of a string.
pub open spec fn utf16_encode(s: Seq<char>) -> Seq<u16>
    decreases s.len(),
{
    if s.len() == 0 {
        seq![]
    } else {
        utf16_encode(s.drop_last()) + utf16_of(s.last())
    }
}

/// A high (leading) surrogate.
pub open spec fn is_high_surrogate(u: u16) -> bool {
    0xD800 <= u <= 0xDBFF
}

/// A low (trailing) surrogate.
pub open spec fn is_low_surrogate(u: u16) -> bool {
    0xDC00 <= u <= 0xDFFF
}

/// Lossy UTF-16 decoding (`String::from_utf16_lossy`): a surrogate pair gives one
/// character, any other surrogate gives U+FFFD.
pub open spec fn utf16_decode(w: Seq<u16>) -> Seq<char>
    decreases w.len(),
{
    if w.len() == 0 {
        seq![]
    } else if !is_high_surrogate(w[0]) && !is_low_surrogate(w[0]) {
        seq![(w[0] as u32) as char] + utf16_decode(w.drop_first())
    } else if is_high_surrogate(w[0]) && w.len() >= 2 && is_low_surrogate(w[1]) {
        seq![((0x10000 + (w[0] - 0xD800) * 1024 + (w[1] - 0xDC00)) as u32) as char] + utf16_decode(
            w.subrange(2, w.len() as int),
        )
    } else {
        seq!['\u{FFFD}'] + utf16_decode(w.drop_first())
    }
}

/// The units of `w` before the first 0 (all of `w` when there is none).
pub open spec fn before_nul(w: Seq<u16>) -> Seq<u16>
    decreases w.len(),
{
    if w.len() == 0 {
        w
    } else if w[0] == 0 {
        seq![]
    } else {
        seq![w[0]] + before_nul(w.drop_first())
    }
}

/// The character with a given scalar value (`char::from_u32` on a valid value).
#[verifier::external_body]
fn char_from_scalar(x: u32) -> (c: char)
    requires
        x < 0xD800 || (0xE000 <= x && x <= 0x10FFFF),
    ensures
        c as int == x,
{
    char::from_u32(x).unwrap()
}

/// `to_wide`: the UTF-16 encoding of `s` followed by a terminating 0.
pub fn to_wide(s: &str) -> (r: Vec<u16>)
    ensures
        r@ == utf16_encode(s@).push(0u16),
{
    let v = chars_of(s);
    let mut out: Vec<u16> = Vec::new();
    let mut i: usize = 0;
    while i < v.len()
        invariant
            i <= v@.len(),
            out@ == utf16_encode(v@.take(i as int)),
        decreases v@.len() - i,
    {
        let c = v[i];
        let u = c as u32;
        let ghost before = out@;
        if u < 0x10000 {
            out.push(u as u16);
        } else {
            let w = u - 0x10000;
            out.push((0xD800 + w / 1024) as u16);
            out.push((0xDC00 + w % 1024) as u16);
        }
        proof {
            assert(v@.take(i + 1).drop_last() =~= v@.take(i as int));
            assert(v@.take(i + 1).last() == c);
            assert(out@ =~= before + utf16_of(c));
        }
        i += 1;
    }
    proof {
        assert(v@.take(v@.len() as int) =~= v@);
    }
    out.push(0);
    out
}

/// `wide_to_string`: the string held in `w` up to its first 0 (or its end), decoded
/// from UTF-16 with unpaired surrogates replaced by U+FFFD.
pub fn wide_to_string(w: &[u16]) -> (r: String)
    ensures
        r@ == utf16_decode(before_nul(w@)),
{
    let mut len: usize = 0;
    while len < w.len() && w[len] != 0
        invariant
            len <= w@.len(),
            forall|j: int| 0 <= j < len ==> w@[j] != 0,
        decreases w@.len() - len,
    {
        len += 1;
    }
    proof {
        lemma_before_nul(w@, len as int);
    }
    let mut out = String::new();
    let mut i: usize = 0;
    let ghost u = w@.subrange(0, len as int);
    proof {
        assert(u.skip(0) =~= u);
    }
    while i < len
        invariant
            i <= len <= w@.len(),
            u == w@.subrange(0, len as int),
            out@ + utf16_decode(u.skip(i as int)) == utf16_decode(u),
        decreases len - i,
    {
        let a = w[i];
        let ghost rest = u.skip(i as int);
        proof {
            assert(rest[0] == a);
        }
        if a < 0xD800 || a > 0xDFFF {
            push_char(&mut out, char_from_scalar(a as u32));
            proof {
                assert(rest.drop_first() =~= u.skip(i + 1));
            }
            i += 1;
        } else if a <= 0xDBFF && i + 1 < len && w[i + 1] >= 0xDC00 && w[i + 1] <= 0xDFFF {
            let b = w[i + 1];
            proof {
                assert(rest[1] == b);
                assert(rest.subrange(2, rest.len() as int) =~= u.skip(i + 2));
            }
            let x: u32 = 0x10000 + (a as u32 - 0xD800) * 1024 + (b as u32 - 0xDC00);
            push_char(&mut out, char_from_scalar(x));
            i += 2;
        } else {
            push_char(&mut out, '\u{FFFD}');
            proof {
                assert(rest.drop_first() =~= u.skip(i + 1));
            }
            i += 1;
        }
    }
    proof {
        assert(u.skip(len as int) =~= Seq::<u16>::empty());
    }
    out
}

/// `before_nul` is the prefix before the first 0.
proof fn lemma_before_nul(w: Seq<u16>, k: int)
    requires
        0 <= k <= w.len(),
        forall|j: int| 0 <= j < k ==> w[j] != 0,
        k == w.len() || w[k] == 0,
    ensures
        before_nul(w) == w.subrange(0, k),
    decreases k,
{
    if k == 0 {
        if w.len() == 0 {
            assert(w.subrange(0, 0) =~= w);
        } else {
            assert(w.subrange(0, 0) =~= Seq::<u16>::empty());
        }
    } else {
        let t = w.drop_first();
        assert forall|j: int| 0 <= j < k - 1 implies t[j] != 0 by {
            assert(t[j] == w[j + 1]);
        }
        lemma_before_nul(t, k - 1);
        assert(seq![w[0]] + t.subrange(0, k - 1) =~= w.subrange(0, k));
    }
}

/// The encoding of a string starts with the encoding of its first character.
proof fn lemma_encode_front(c: char, t: Seq<char>)
    ensures
        utf16_encode(seq![c] + t) == utf16_of(c) + utf16_encode(t),
    decreases t.len(),
{
    if t.len() == 0 {
        assert(seq![c] + t =~= seq![c]);
        assert((seq![c] + t).drop_last() =~= Seq::<char>::empty());
        assert(utf16_of(c) + utf16_encode(t) =~= utf16_of(c));
        assert(seq![c].drop_last() =~= Seq::<char>::empty());
        assert(utf16_encode(Seq::<char>::empty()) =~= Seq::<u16>::empty());
        assert(utf16_encode(seq![c]) =~= Seq::<u16>::empty() + utf16_of(c));
    } else {
        lemma_encode_front(c, t.drop_last());
        assert((seq![c] + t).drop_last() =~= seq![c] + t.drop_last());
        assert((seq![c] + t).last() == t.last());
        assert(utf16_of(c) + utf16_encode(t) =~= utf16_of(c) + utf16_encode(t.drop_last()) + utf16_of(t.last()));
    }
}

/// Decoding the encoding of a character gives the character back.
proof fn lemma_decode_char(c: char, w: Seq<u16>)
    ensures
        utf16_decode(utf16_of(c) + w) == seq![c] + utf16_decode(w),
{
    broadcast use vstd::utf8::char_is_scalar, vstd::utf8::char_u32_cast;
    let u = c as u32;
    let e = utf16_of(c) + w;
    if u < 0x10000 {
        assert(e[0] == u as u16);
        assert(e.drop_first() =~= w);
        assert((e[0] as u32) == u);
    } else {
        let v = u - 0x10000;
        let hi = (0xD800 + v / 1024) as u16;
        let lo = (0xDC00 + v % 1024) as u16;
        assert(v < 0x100000);
        assert(0 <= v / 1024 < 1024) by (nonlinear_arith)
            requires 0 <= v < 0x100000;
        assert(0 <= v % 1024 < 1024) by (nonlinear_arith)
            requires 0 <= v;
        assert((v / 1024) * 1024 + v % 1024 == v) by (nonlinear_arith);
        assert(e[0] == hi && e[1] == lo);
        assert(e.subrange(2, e.len() as int) =~= w);
        let x = (0x10000 + (hi - 0xD800) * 1024 + (lo - 0xDC00)) as u32;
        assert(x == u);
    }
}

/// Decoding the encoding of a string gives the string back.
pub proof fn lemma_decode_encode(s: Seq<char>)
    ensures
        utf16_decode(utf16_encode(s)) == s,
    decreases s.len(),
{
    if s.len() > 0 {
        let t = s.drop_first();
        assert(s =~= seq![s[0]] + t);
        lemma_encode_front(s[0], t);
        lemma_decode_char(s[0], utf16_encode(t));
        lemma_decode_encode(t);
    } else {
        assert(utf16_encode(s) =~= Seq::<u16>::empty());
    }
}

/// The encoding of a string without NUL characters has no 0 unit.
proof fn lemma_encode_no_nul(s: Seq<char>)
    requires
        !s.contains('\0'),
    ensures
        !utf16_encode(s).contains(0u16),
    decreases s.len(),
{
    broadcast use vstd::utf8::char_is_scalar;
    if s.len() > 0 {
        assert(!s.drop_last().contains('\0')) by {
            if s.drop_last().contains('\0') {
                let j: int = choose|j: int| 0 <= j < s.drop_last().len() && s.drop_last()[j] == '\0';
                assert(s[j] == '\0');
            }
        }
        lemma_encode_no_nul(s.drop_last());
        let c = s.last();
        assert(c != '\0');
        assert((c as u32) != 0) by {
            broadcast use vstd::utf8::char_u32_cast;
            vstd::utf8::char_u32_cast(c, c as u32);
            if (c as u32) == 0 {
                assert(((c as u32) as char) == c);
                assert((0u32 as char) == '\0');
            }
        }
        let a = utf16_encode(s.drop_last());
        let b = utf16_of(c);
        assert(!b.contains(0u16)) by {
            vstd::utf8::char_is_scalar(c);
            if (c as u32) < 0x10000 {
                assert(b.len() == 1 && b[0] != 0);
            } else {
                assert(b.len() == 2 && b[0] != 0 && b[1] != 0);
            }
        }
        if (a + b).contains(0u16) {
            let j: int = choose|j: int| 0 <= j < (a + b).len() && (a + b)[j] == 0u16;
            if j < a.len() {
                assert(a[j] == 0u16);
            } else {
                assert(b[j - a.len()] == 0u16);
            }
        }
    }
}

/// `before_nul` of units without a 0, followed by a 0, is those units.
proof fn lemma_before_nul_terminated(w: Seq<u16>)
    requires
        !w.contains(0u16),
    ensures
        before_nul(w.push(0u16)) == w,
{
    let t = w.push(0u16);
    assert forall|j: int| 0 <= j < w.len() implies t[j] != 0 by {
        assert(t[j] == w[j]);
    }
    lemma_before_nul(t, w.len() as int);
    assert(t.subrange(0, w.len() as int) =~= w);
}

/// Reading back a written wide string: for a string without NUL characters,
/// `wide_to_string(to_wide(s))` is `s`.
pub proof fn lemma_wide_roundtrip(s: Seq<char>)
    requires
        !s.contains('\0'),
    ensures
        utf16_decode(before_nul(utf16_encode(s).push(0u16))) == s,
{
    lemma_encode_no_nul(s);
    lemma_before_nul_terminated(utf16_encode(s));
    lemma_decode_encode(s);
}

// ---------------------------------------------------------------------------
// File attributes and locked files
// ---------------------------------------------------------------------------

/// The attribute bit of reparse points (symbolic links, junctions).
pub open spec fn reparse_attribute() -> u32 {
    0x0400
}

/// `is_reparse`: whether file attributes mark a reparse point (a symbolic link or
/// junction), which scans do not enter.
pub fn is_reparse(file_attributes: u32) -> (r: bool)
    ensures
        r == (file_attributes & reparse_attribute() != 0),
{
    file_attributes & 0x0400 != 0
}

/// Files found in use: how many, and up to 20 of their paths.
pub struct LockTracker {
    pub count: u64,
    pub samples: Vec<String>,
}

/// The most sample paths a tracker keeps.
pub open spec fn max_lock_samples() -> nat {
    20
}

/// What `add` makes of a tracker's samples.
pub open spec fn add_sample(samples: Seq<Seq<char>>, path: Seq<char>) -> Seq<Seq<char>> {
    if samples.len() < max_lock_samples() {
        samples.push(path)
    } else {
        samples
    }
}

impl LockTracker {
    /// An empty tracker.
    pub fn new() -> (r: Self)
        ensures
            r.count == 0,
            r.samples@.len() == 0,
    {
        LockTracker { count: 0, samples: Vec::new() }
    }

    /// Records one file in use: the count goes up by one and the path is kept while
    /// fewer than 20 are kept.
    pub fn add(&mut self, path: &str)
        requires
            old(self).count < u64::MAX,
        ensures
            final(self).count == old(self).count + 1,
            strings_view(final(self).samples@) == add_sample(strings_view(old(self).samples@), path@),
    {
        self.count = self.count + 1;
        if self.samples.len() < 20 {
            let ghost before = self.samples@;
            self.samples.push(path.to_owned());
            proof {
                assert(strings_view(self.samples@) =~= strings_view(before).push(path@));
            }
        }
    }
}

impl Default for LockTracker {
    fn default() -> (r: Self)
        ensures
            r.count == 0,
            r.samples@.len() == 0,
    {
        LockTracker::new()
    }
}

/// The character sequences of a list of strings.
pub open spec fn strings_view(v: Seq<String>) -> Seq<Seq<char>> {
    v.map_values(|s: String| s@)
}

// ---------------------------------------------------------------------------
// Command lines
// ---------------------------------------------------------------------------

/// The white-space separated tokens of `s`, in order.
pub open spec fn ws_tokens(s: Seq<char>) -> Seq<Seq<char>>
    decreases s.len(),
{
    let t = trim_start(s);
    if t.len() == 0 {
        seq![]
    } else {
        proof {
            crate::text::lemma_trim_start_len(s);
            crate::text::lemma_trim_start_start(s);
            crate::text::lemma_token_end_bounds(t);
        }
        seq![t.take(crate::text::token_end(t))] + ws_tokens(t.skip(crate::text::token_end(t)))
    }
}

/// The fallback split of a command line: white-space separated tokens with double
/// quotes trimmed from both ends.
pub open spec fn split_command_line_spec(s: Seq<char>) -> Seq<Seq<char>> {
    ws_tokens(s).map_values(|t: Seq<char>| crate::text::strip(t, '"'))
}

/// Leading white space does not change the tokens.
proof fn lemma_ws_tokens_space(s: Seq<char>)
    requires
        s.len() > 0,
        is_ws(s[0]),
    ensures
        ws_tokens(s) == ws_tokens(s.drop_first()),
{
}

/// A string that starts with a token: that token, then the tokens of the rest.
proof fn lemma_ws_tokens_token(s: Seq<char>)
    requires
        s.len() > 0,
        !is_ws(s[0]),
    ensures
        ws_tokens(s) == seq![s.take(crate::text::token_end(s))] + ws_tokens(
            s.skip(crate::text::token_end(s)),
        ),
{
}

/// The fallback split of a command line (`split_whitespace`, then `trim_matches('"')`
/// on each token), used where the system parser gives nothing.
pub fn split_command_line(cmdline: &str) -> (r: Vec<String>)
    ensures
        strings_view(r@) == split_command_line_spec(cmdline@),
{
    let v = chars_of(cmdline);
    let mut out: Vec<String> = Vec::new();
    let ghost mut toks: Seq<Seq<char>> = seq![];
    let mut i: usize = 0;
    proof {
        assert(v@.skip(0) =~= v@);
        assert(toks + ws_tokens(v@) =~= ws_tokens(v@));
    }
    while i < v.len()
        invariant
            v@ == cmdline@,
            i <= v@.len(),
            ws_tokens(cmdline@) == toks + ws_tokens(v@.skip(i as int)),
            strings_view(out@) == toks.map_values(|t: Seq<char>| crate::text::strip(t, '"')),
        decreases v@.len() - i,
    {
        if is_whitespace(v[i]) {
            proof {
                lemma_ws_tokens_space(v@.skip(i as int));
                assert(v@.skip(i as int).drop_first() =~= v@.skip(i + 1));
            }
            i += 1;
        } else {
            let start = i;
            while i < v.len() && !is_whitespace(v[i])
                invariant
                    start <= i <= v@.len(),
                    forall|j: int| start <= j < i ==> !is_ws(v@[j]),
                decreases v@.len() - i,
            {
                i += 1;
            }
            let tok = &v[start..i];
            let (lo, hi) = crate::text::strip_bounds(tok, '"');
            let piece = crate::text::string_of_range(tok, lo, hi);
            proof {
                let s = v@.skip(start as int);
                let k: int = (i - start) as int;
                assert forall|j: int| 0 <= j < k implies !is_ws(s[j]) by {
                    assert(s[j] == v@[start + j]);
                }
                if i < v@.len() {
                    assert(s[k] == v@[i as int]);
                }
                crate::text::lemma_token_end(s, k);
                assert(s[0] == v@[start as int]);
                lemma_ws_tokens_token(s);
                assert(s.take(k) =~= tok@);
                assert(s.skip(k) =~= v@.skip(i as int));
                toks = toks.push(tok@);
                assert(toks + ws_tokens(v@.skip(i as int)) =~= (toks.drop_last() + seq![tok@]) + ws_tokens(v@.skip(i as int)));
            }
            let ghost before = out@;
            out.push(piece);
            proof {
                assert(strings_view(out@) =~= strings_view(before).push(piece@));
                assert(toks.map_values(|t: Seq<char>| crate::text::strip(t, '"')) =~= toks.drop_last().map_values(
                    |t: Seq<char>| crate::text::strip(t, '"'),
                ).push(crate::text::strip(tok@, '"')));
            }
        }
    }
    proof {
        assert(v@.skip(i as int) =~= Seq::<char>::empty());
        assert(toks + seq![] =~= toks);
    }
    out
}

/// `parse_command_line`: the arguments of a Windows command line. `argv` is what the
/// system parser (`CommandLineToArgvW`) returned, `None` where it failed; the
/// fallback split is used then.
pub fn parse_command_line(cmdline: &str, argv: Option<Vec<String>>) -> (r: Vec<String>)
    ensures
        match argv {
            Some(a) => r@ == a@,
            None => strings_view(r@) == split_command_line_spec(cmdline@),
        },
{
    match argv {
        Some(a) => a,
        None => split_command_line(cmdline),
    }
}

// ---------------------------------------------------------------------------
// Path lists for the shell
// ---------------------------------------------------------------------------

/// Paths encoded one after the other, each followed by a 0.
pub open spec fn nul_separated(paths: Seq<Seq<char>>) -> Seq<u16>
    decreases paths.len(),
{
    if paths.len() == 0 {
        seq![]
    } else {
        nul_separated(paths.drop_last()) + utf16_encode(paths.last()).push(0u16)
    }
}

/// The path list a shell file operation takes: each path in UTF-16 followed by a 0,
/// the whole ended by one more 0. `None` for no paths, where there is nothing to do.
pub fn shell_path_list(paths: &[String]) -> (r: Option<Vec<u16>>)
    ensures
        match r {
            None => paths@.len() == 0,
            Some(w) => paths@.len() > 0 && w@ == nul_separated(strings_view(paths@)).push(0u16),
        },
{
    if paths.len() == 0 {
        return None;
    }
    let ghost pv = strings_view(paths@);
    let mut out: Vec<u16> = Vec::new();
    let mut i: usize = 0;
    proof {
        assert(pv.take(0) =~= Seq::<Seq<char>>::empty());
    }
    while i < paths.len()
        invariant
            pv == strings_view(paths@),
            i <= paths@.len(),
            out@ == nul_separated(pv.take(i as int)),
        decreases paths@.len() - i,
    {
        let w = to_wide(paths[i].as_str());
        let mut k: usize = 0;
        let ghost start = out@;
        while k < w.len()
            invariant
                k <= w@.len(),
                out@ == start + w@.take(k as int),
            decreases w@.len() - k,
        {
            out.push(w[k]);
            proof {
                assert(w@.take(k + 1) =~= w@.take(k as int).push(w@[k as int]));
            }
            k += 1;
        }
        proof {
            assert(w@.take(w@.len() as int) =~= w@);
            assert(pv.take(i + 1).drop_last() =~= pv.take(i as int));
            assert(pv.take(i + 1).last() == paths@[i as int]@);
        }
        i += 1;
    }
    proof {
        assert(pv.take(pv.len() as int) =~= pv);
    }
    out.push(0);
    Some(out)
}

} // verus!
