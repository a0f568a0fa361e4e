//! The record codec: a workspace record is stored as one line of text,
//! `path = "<escaped bytes>"`, terminated by a newline.
//!
//! Encoding escapes the backslash, the double quote and the control bytes
//! that would break the line structure. Decoding scans the file line by
//! line, ignores lines that are not a `path` assignment, and reverses the
//! escaping; a file without a well-formed `path` line fails to parse.

use vstd::prelude::*;

use crate::record::{Error, Workspace};

verus! {

/// Bytes that the encoder never emits bare: backslash, double quote,
/// newline, carriage return, tab.
pub open spec fn must_escape(b: u8) -> bool {
    b == 92 || b == 34 || b == 10 || b == 13 || b == 9
}

/// The code byte standing for an escaped byte: `\\`, `\"`, `\n`, `\r`, `\t`.
pub open spec fn esc_code(b: u8) -> u8 {
    if b == 92 {
        92
    } else if b == 34 {
        34
    } else if b == 10 {
        110
    } else if b == 13 {
        114
    } else {
        116
    }
}

/// Whether `c` is a code byte that may follow a backslash.
pub open spec fn is_esc_code(c: u8) -> bool {
    c == 92 || c == 34 || c == 110 || c == 114 || c == 116
}

/// The byte a code byte stands for.
pub open spec fn esc_code_value(c: u8) -> u8 {
    if c == 92 {
        92
    } else if c == 34 {
        34
    } else if c == 110 {
        10
    } else if c == 114 {
        13
    } else {
        9
    }
}

/// The encoding of one byte: itself, or a backslash followed by its code.
pub open spec fn esc1(b: u8) -> Seq<u8> {
    if must_escape(b) {
        seq![92u8, esc_code(b)]
    } else {
        seq![b]
    }
}

/// The escaped form of a byte string.
pub open spec fn escape(s: Seq<u8>) -> Seq<u8>
    decreases s.len(),
{
    if s.len() == 0 {
        Seq::empty()
    } else {
        esc1(s[0]) + escape(s.skip(1))
    }
}

/// The inverse of [`escape`]: `None` on a dangling or unknown escape and on
/// a bare quote or newline, which cannot appear inside an encoded string.
pub open spec fn unescape(s: Seq<u8>) -> Option<Seq<u8>>
    decreases s.len(),
{
    if s.len() == 0 {
        Some(Seq::empty())
    } else if s[0] == 92 {
        if s.len() >= 2 && is_esc_code(s[1]) {
            match unescape(s.skip(2)) {
                Some(t) => Some(seq![esc_code_value(s[1])] + t),
                None => None,
            }
        } else {
            None
        }
    } else if s[0] == 34 || s[0] == 10 {
        None
    } else {
        match unescape(s.skip(1)) {
            Some(t) => Some(seq![s[0]] + t),
            None => None,
        }
    }
}

/// Escaping loses nothing: unescaping an escaped string gives it back.
pub proof fn lemma_escape_unescape(s: Seq<u8>)
    ensures
        unescape(escape(s)) == Some(s),
    decreases s.len(),
{
    if s.len() == 0 {
        assert(escape(s) == Seq::<u8>::empty());
        assert(s =~= Seq::<u8>::empty());
    } else {
        lemma_escape_unescape(s.skip(1));
        let e = escape(s);
        if must_escape(s[0]) {
            assert(e =~= seq![92u8, esc_code(s[0])] + escape(s.skip(1)));
            assert(e[0] == 92 && e[1] == esc_code(s[0]));
            assert(is_esc_code(esc_code(s[0])));
            assert(e.skip(2) =~= escape(s.skip(1)));
            assert(esc_code_value(esc_code(s[0])) == s[0]);
            assert(unescape(e) == Some(seq![s[0]] + s.skip(1)));
            assert(seq![s[0]] + s.skip(1) =~= s);
        } else {
            assert(e =~= seq![s[0]] + escape(s.skip(1)));
            assert(e[0] == s[0]);
            assert(e.skip(1) =~= escape(s.skip(1)));
            assert(unescape(e) == Some(seq![s[0]] + s.skip(1)));
            assert(seq![s[0]] + s.skip(1) =~= s);
        }
    }
}

/// An escaped string never holds a bare newline.
pub proof fn lemma_escape_no_newline(s: Seq<u8>)
    ensures
        forall|i: int| 0 <= i < escape(s).len() ==> escape(s)[i] != 10,
    decreases s.len(),
{
    if s.len() > 0 {
        lemma_escape_no_newline(s.skip(1));
        assert(forall|i: int|
            0 <= i < escape(s).len() ==> escape(s)[i] == (esc1(s[0]) + escape(s.skip(1)))[i]);
    }
}

/// Escaping one byte more appends that byte's encoding.
pub proof fn lemma_escape_push(s: Seq<u8>, b: u8)
    ensures
        escape(s.push(b)) == escape(s) + esc1(b),
    decreases s.len(),
{
    if s.len() == 0 {
        assert(s.push(b)[0] == b);
        assert(s.push(b).skip(1) =~= Seq::<u8>::empty());
        assert(escape(s.push(b)) == esc1(b) + escape(Seq::<u8>::empty()));
        assert(escape(Seq::<u8>::empty()) == Seq::<u8>::empty());
        assert(escape(s) == Seq::<u8>::empty());
        assert(esc1(b) + Seq::<u8>::empty() =~= esc1(b));
        assert(Seq::<u8>::empty() + esc1(b) =~= esc1(b));
    } else {
        lemma_escape_push(s.skip(1), b);
        assert(s.push(b).skip(1) =~= s.skip(1).push(b));
        assert(s.push(b)[0] == s[0]);
        assert(escape(s.push(b)) == esc1(s[0]) + escape(s.skip(1).push(b)));
        assert(esc1(s[0]) + (escape(s.skip(1)) + esc1(b)) =~= (esc1(s[0]) + escape(s.skip(1)))
            + esc1(b));
        assert(escape(s.push(b)) == escape(s) + esc1(b));
    }
}

/// The index of the first newline byte, or the length if there is none.
pub open spec fn first_nl(s: Seq<u8>) -> nat
    decreases s.len(),
{
    if s.len() == 0 {
        0
    } else if s[0] == 10 {
        0
    } else {
        1 + first_nl(s.skip(1))
    }
}

/// A position with no newline before it and a newline at it (or the end)
/// is exactly where [`first_nl`] points.
pub proof fn lemma_first_nl_at(s: Seq<u8>, n: int)
    requires
        0 <= n <= s.len(),
        forall|k: int| 0 <= k < n ==> s[k] != 10,
        n < s.len() ==> s[n] == 10,
    ensures
        first_nl(s) == n,
    decreases s.len(),
{
    if s.len() > 0 && s[0] != 10 {
        assert(forall|k: int| 0 <= k < n - 1 ==> s.skip(1)[k] == s[k + 1]);
        assert(n - 1 < s.skip(1).len() ==> s.skip(1)[n - 1] == s[n]);
        lemma_first_nl_at(s.skip(1), n - 1);
    }
}

/// The bytes `path = "` that open the path line.
pub open spec fn line_prefix() -> Seq<u8> {
    seq![112u8, 97u8, 116u8, 104u8, 32u8, 61u8, 32u8, 34u8]
}

/// Whether `s` begins with the bytes of `p`.
pub open spec fn starts_with(s: Seq<u8>, p: Seq<u8>) -> bool {
    s.len() >= p.len() && s.take(p.len() as int) == p
}

/// The path held by one line that opens with [`line_prefix`]: the bytes
/// between the prefix and a closing quote, unescaped. `None` when the
/// quote or the escaping is broken.
pub open spec fn parse_path_line(line: Seq<u8>) -> Option<Seq<u8>> {
    if line.len() >= line_prefix().len() + 1 && line.last() == 34 {
        unescape(line.subrange(line_prefix().len() as int, line.len() - 1))
    } else {
        None
    }
}

/// The decoded path of a record file: the first line that opens with
/// `path = "` decides; other lines are ignored; a file without such a
/// line, or whose path line is malformed, has no decoding.
pub open spec fn decode_spec(c: Seq<u8>) -> Option<Seq<u8>>
    decreases c.len(),
{
    if c.len() == 0 {
        None
    } else {
        let n = first_nl(c) as int;
        let line = c.take(n);
        if starts_with(line, line_prefix()) {
            parse_path_line(line)
        } else if n >= c.len() {
            None
        } else {
            decode_spec(c.skip(n + 1))
        }
    }
}

/// The encoded form of a record: one `path = "..."` line ending in a
/// newline.
pub open spec fn encode_spec(path: Seq<u8>) -> Seq<u8> {
    line_prefix() + escape(path) + seq![34u8, 10u8]
}

/// `o` with `p` prepended to its content, if it has any.
pub open spec fn opt_prepend(p: Seq<u8>, o: Option<Seq<u8>>) -> Option<Seq<u8>> {
    match o {
        Some(t) => Some(p + t),
        None => None,
    }
}

/// Prepending twice is prepending the concatenation.
proof fn lemma_opt_prepend_assoc(p: Seq<u8>, q: Seq<u8>, o: Option<Seq<u8>>)
    ensures
        opt_prepend(p, opt_prepend(q, o)) == opt_prepend(p + q, o),
{
    match o {
        Some(t) => {
            assert(p + (q + t) =~= (p + q) + t);
        },
        None => {},
    }
}

/// Serializes a record: one `path = "..."` line, escaped and newline-terminated.
pub fn encode(ws: &Workspace) -> (r: Vec<u8>)
    ensures
        r@ == encode_spec(ws.path@),
{
    let mut out: Vec<u8> = Vec::new();
    out.push(112);
    out.push(97);
    out.push(116);
    out.push(104);
    out.push(32);
    out.push(61);
    out.push(32);
    out.push(34);
    assert(out@ =~= line_prefix());
    let n = ws.path.len();
    let mut i: usize = 0;
    while i < n
        invariant
            i <= n,
            n == ws.path@.len(),
            out@ == line_prefix() + escape(ws.path@.take(i as int)),
        decreases n - i,
    {
        let b = ws.path[i];
        if b == 92 || b == 34 {
            out.push(92);
            out.push(b);
        } else if b == 10 {
            out.push(92);
            out.push(110);
        } else if b == 13 {
            out.push(92);
            out.push(114);
        } else if b == 9 {
            out.push(92);
            out.push(116);
        } else {
            out.push(b);
        }
        proof {
            lemma_escape_push(ws.path@.take(i as int), b);
            assert(ws.path@.take(i as int).push(b) =~= ws.path@.take(i + 1));
            assert(out@ =~= line_prefix() + escape(ws.path@.take(i + 1)));
        }
        i = i + 1;
    }
    out.push(34);
    out.push(10);
    proof {
        assert(ws.path@.take(n as int) =~= ws.path@);
        assert(out@ =~= encode_spec(ws.path@));
    }
    out
}

/// Reverses the escaping over `v[from..to]`; `None` where [`unescape`]
/// has no answer.
fn unescape_range(v: &Vec<u8>, from: usize, to: usize) -> (r: Option<Vec<u8>>)
    requires
        from <= to <= v@.len(),
    ensures
        match r {
            Some(p) => unescape(v@.subrange(from as int, to as int)) == Some(p@),
            None => unescape(v@.subrange(from as int, to as int)) is None,
        },
{
    let ghost whole = v@.subrange(from as int, to as int);
    let mut acc: Vec<u8> = Vec::new();
    let mut i: usize = from;
    while i < to
        invariant
            from <= i <= to <= v@.len(),
            whole == v@.subrange(from as int, to as int),
            unescape(whole) == opt_prepend(acc@, unescape(v@.subrange(i as int, to as int))),
        decreases to - i,
    {
        let ghost rest = v@.subrange(i as int, to as int);
        let b = v[i];
        assert(rest[0] == b);
        if b == 92 {
            if i + 1 >= to {
                proof {
                    assert(rest.len() == 1);
                    assert(unescape(rest) is None);
                }
                return None;
            }
            let c = v[i + 1];
            assert(rest[1] == c);
            if c == 92 || c == 34 || c == 110 || c == 114 || c == 116 {
                let val: u8 = if c == 92 {
                    92
                } else if c == 34 {
                    34
                } else if c == 110 {
                    10
                } else if c == 114 {
                    13
                } else {
                    9
                };
                let ghost acc0 = acc@;
                acc.push(val);
                proof {
                    assert(val == esc_code_value(c));
                    assert(rest.skip(2) =~= v@.subrange(i + 2, to as int));
                    assert(unescape(rest) == opt_prepend(
                        seq![val],
                        unescape(v@.subrange(i + 2, to as int)),
                    ));
                    assert(acc@ =~= acc0 + seq![val]);
                    lemma_opt_prepend_assoc(
                        acc0,
                        seq![val],
                        unescape(v@.subrange(i + 2, to as int)),
                    );
                }
                i = i + 2;
            } else {
                proof {
                    assert(!is_esc_code(rest[1]));
                    assert(unescape(rest) is None);
                }
                return None;
            }
        } else if b == 34 || b == 10 {
            proof {
                assert(unescape(rest) is None);
            }
            return None;
        } else {
            let ghost acc0 = acc@;
            acc.push(b);
            proof {
                assert(rest.skip(1) =~= v@.subrange(i + 1, to as int));
                assert(unescape(rest) == opt_prepend(
                    seq![b],
                    unescape(v@.subrange(i + 1, to as int)),
                ));
                assert(acc@ =~= acc0 + seq![b]);
                lemma_opt_prepend_assoc(acc0, seq![b], unescape(v@.subrange(i + 1, to as int)));
            }
            i = i + 1;
        }
    }
    proof {
        assert(v@.subrange(i as int, to as int) =~= Seq::<u8>::empty());
        assert(unescape(Seq::<u8>::empty()) == Some(Seq::<u8>::empty()));
        assert(acc@ + Seq::<u8>::empty() =~= acc@);
    }
    Some(acc)
}

/// Parses a record file. Exactly the files whose [`decode_spec`] is some
/// path decode to a record holding that path; every other file fails
/// with [`Error::Parse`].
pub fn decode(content: &Vec<u8>) -> (r: Result<Workspace, Error>)
    ensures
        match r {
            Ok(ws) => decode_spec(content@) == Some(ws.path@),
            Err(e) => e == Error::Parse && decode_spec(content@) is None,
        },
{
    let n = content.len();
    let mut i: usize = 0;
    proof {
        assert(content@.skip(0) =~= content@);
    }
    loop
        invariant
            i <= n,
            n == content@.len(),
            decode_spec(content@) == decode_spec(content@.skip(i as int)),
        decreases n - i,
    {
        let ghost rest = content@.skip(i as int);
        if i >= n {
            proof {
                assert(rest =~= Seq::<u8>::empty());
            }
            return Err(Error::Parse);
        }
        let mut j: usize = i;
        while j < n && content[j] != 10
            invariant
                i <= j <= n,
                n == content@.len(),
                forall|k: int| i <= k < j ==> content@[k] != 10,
            decreases n - j,
        {
            j = j + 1;
        }
        proof {
            assert(forall|k: int| 0 <= k < rest.len() ==> rest[k] == content@[i + k]);
            lemma_first_nl_at(rest, j - i);
        }
        let ghost line = rest.take(j - i);
        let mut is_path = false;
        if j - i >= 8 {
            is_path = content[i] == 112 && content[i + 1] == 97
                && content[i + 2] == 116 && content[i + 3] == 104
                && content[i + 4] == 32 && content[i + 5] == 61
                && content[i + 6] == 32 && content[i + 7] == 34;
        }
        proof {
            assert(forall|k: int| 0 <= k < line.len() ==> line[k] == content@[i + k]);
            if is_path {
                assert(line.take(8) =~= line_prefix());
            }
            if line.len() >= 8 && line.take(8) == line_prefix() {
                assert(forall|k: int|
                    0 <= k < 8 ==> content@[i + k] == line.take(8)[k]);
            }
            assert(is_path == starts_with(line, line_prefix()));
        }
        if is_path {
            if j - i >= 9 && content[j - 1] == 34 {
                proof {
                    assert(line.last() == content@[j - 1]);
                    assert(line.subrange(8, line.len() as int - 1) =~= content@.subrange(
                        i + 8,
                        j - 1,
                    ));
                }
                match unescape_range(content, i + 8, j - 1) {
                    Some(p) => {
                        proof {
                            assert(parse_path_line(line) == Some(p@));
                        }
                        return Ok(Workspace { path: p });
                    },
                    None => {
                        proof {
                            assert(parse_path_line(line) is None);
                        }
                        return Err(Error::Parse);
                    },
                }
            } else {
                proof {
                    if line.len() >= 9 {
                        assert(line.last() == content@[j - 1]);
                    }
                    assert(parse_path_line(line) is None);
                }
                return Err(Error::Parse);
            }
        } else if j >= n {
            proof {
                assert(first_nl(rest) >= rest.len());
            }
            return Err(Error::Parse);
        } else {
            proof {
                assert(rest.skip(j - i + 1) =~= content@.skip(j + 1));
            }
            i = j + 1;
        }
    }
}

/// Decoding an encoded record gives the path back, for every path.
pub proof fn lemma_round_trip(p: Seq<u8>)
    ensures
        decode_spec(encode_spec(p)) == Some(p),
{
    let c = encode_spec(p);
    let e = escape(p);
    let ll: int = 8 + e.len() as int;
    lemma_escape_no_newline(p);
    assert(forall|k: int| 0 <= k < ll ==> c[k] != 10);
    assert(c[ll] == 34);
    assert(c[ll + 1] == 10);
    lemma_first_nl_at(c, ll + 1);
    let line = c.take(ll + 1);
    assert(line.take(8) =~= line_prefix());
    assert(starts_with(line, line_prefix()));
    assert(line.last() == 34);
    assert(line.subrange(8, line.len() - 1) =~= e);
    lemma_escape_unescape(p);
    assert(parse_path_line(line) == Some(p));
}

} // verus!
