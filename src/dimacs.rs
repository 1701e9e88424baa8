//! Reading a problem in DIMACS CNF: lines whose first word starts with `c`
//! (comments) or `p` (the header) are skipped; every other word that reads as
//! a 32-bit integer is a literal, `0` ends a clause, other words are ignored,
//! and literals left without a final `0` form a last clause. Empty clauses
//! (repeated zeros) are not produced. Words are separated by white space:
//! ASCII white space and the other Unicode white-space characters in UTF-8.
use vstd::prelude::*;

verus! {

pub open spec fn is_space(b: u8) -> bool {
    b == 32 || (9 <= b && b <= 13)
}

pub open spec fn byte_seqs(v: Seq<Vec<u8>>) -> Seq<Seq<u8>> {
    v.map_values(|l: Vec<u8>| l@)
}

/// The length of the UTF-8 encoding of a non-ASCII white-space character
/// (U+0085, U+00A0, U+1680, U+2000 to U+200A, U+2028, U+2029, U+202F, U+205F,
/// U+3000) at the front of `s`, or 0 when there is none.
pub open spec fn wide_space_len(s: Seq<u8>) -> int {
    if s.len() >= 2 && s[0] == 0xC2 && (s[1] == 0x85 || s[1] == 0xA0) {
        2
    } else if s.len() >= 3 && s[0] == 0xE1 && s[1] == 0x9A && s[2] == 0x80 {
        3
    } else if s.len() >= 3 && s[0] == 0xE2 && s[1] == 0x80 && ((0x80 <= s[2] && s[2] <= 0x8A)
        || s[2] == 0xA8 || s[2] == 0xA9 || s[2] == 0xAF) {
        3
    } else if s.len() >= 3 && s[0] == 0xE2 && s[1] == 0x81 && s[2] == 0x9F {
        3
    } else if s.len() >= 3 && s[0] == 0xE3 && s[1] == 0x80 && s[2] == 0x80 {
        3
    } else {
        0
    }
}

/// The text with every non-ASCII white-space character replaced by a space.
pub open spec fn spaced(s: Seq<u8>) -> Seq<u8>
    decreases s.len(),
{
    if s.len() == 0 {
        Seq::empty()
    } else if wide_space_len(s) > 0 {
        seq![32u8] + spaced(s.skip(wide_space_len(s)))
    } else {
        seq![s[0]] + spaced(s.skip(1))
    }
}

/// The lines of a text: the pieces between newline bytes.
pub open spec fn lines(s: Seq<u8>) -> Seq<Seq<u8>>
    decreases s.len(),
{
    if s.len() == 0 {
        seq![Seq::empty()]
    } else {
        let l = lines(s.drop_last());
        if s.last() == 10 {
            l.push(Seq::empty())
        } else {
            l.update(l.len() - 1, l.last().push(s.last()))
        }
    }
}

/// The words of a line: its maximal runs of bytes that are not white space.
pub open spec fn words(s: Seq<u8>) -> Seq<Seq<u8>>
    decreases s.len(),
{
    if s.len() == 0 {
        Seq::empty()
    } else {
        let w = words(s.drop_last());
        if is_space(s.last()) {
            w
        } else if s.len() >= 2 && !is_space(s[s.len() - 2]) {
            w.update(w.len() - 1, w.last().push(s.last()))
        } else {
            w.push(seq![s.last()])
        }
    }
}

/// The value of a string of decimal digits.
pub open spec fn digits_value(d: Seq<u8>) -> int
    decreases d.len(),
{
    if d.len() == 0 {
        0
    } else {
        digits_value(d.drop_last()) * 10 + (d.last() - 48)
    }
}

pub open spec fn all_digits(d: Seq<u8>) -> bool {
    d.len() > 0 && forall|i: int| 0 <= i < d.len() ==> 48 <= #[trigger] d[i] <= 57
}

/// A word read as a 32-bit integer: an optional sign, then decimal digits.
pub open spec fn parse_int(w: Seq<u8>) -> Option<i32> {
    let signed = w.len() > 0 && (w[0] == 45 || w[0] == 43);
    let d = if signed {
        w.skip(1)
    } else {
        w
    };
    let v = if w.len() > 0 && w[0] == 45 {
        -digits_value(d)
    } else {
        digits_value(d)
    };
    if all_digits(d) && i32::MIN <= v <= i32::MAX {
        Some(v as i32)
    } else {
        None
    }
}

/// The integers among a list of words.
pub open spec fn word_values(ws: Seq<Seq<u8>>) -> Seq<i32>
    decreases ws.len(),
{
    if ws.len() == 0 {
        Seq::empty()
    } else {
        let v = word_values(ws.drop_last());
        match parse_int(ws.last()) {
            Some(x) => v.push(x),
            None => v,
        }
    }
}

/// A comment or header line: its first word starts with `c` or `p`.
pub open spec fn skipped_line(line: Seq<u8>) -> bool {
    let ws = words(line);
    ws.len() > 0 && (ws[0][0] == 99 || ws[0][0] == 112)
}

/// The integers of the lines that are not skipped, in order.
pub open spec fn text_values(ls: Seq<Seq<u8>>) -> Seq<i32>
    decreases ls.len(),
{
    if ls.len() == 0 {
        Seq::empty()
    } else if skipped_line(ls.last()) {
        text_values(ls.drop_last())
    } else {
        text_values(ls.drop_last()) + word_values(words(ls.last()))
    }
}

/// Groups a value stream into the finished clauses and the clause in progress.
pub open spec fn grouped(vals: Seq<i32>) -> (Seq<Seq<i32>>, Seq<i32>)
    decreases vals.len(),
{
    if vals.len() == 0 {
        (Seq::empty(), Seq::empty())
    } else {
        let (done, cur) = grouped(vals.drop_last());
        if vals.last() == 0 {
            if cur.len() > 0 {
                (done.push(cur), Seq::empty())
            } else {
                (done, cur)
            }
        } else {
            (done, cur.push(vals.last()))
        }
    }
}

/// The clauses of a DIMACS text.
pub open spec fn dimacs_clauses(text: Seq<u8>) -> Seq<Seq<i32>> {
    let (done, cur) = grouped(text_values(lines(spaced(text))));
    if cur.len() > 0 {
        done.push(cur)
    } else {
        done
    }
}

proof fn lemma_words_last(s: Seq<u8>)
    requires
        s.len() > 0,
        !is_space(s.last()),
    ensures
        words(s).len() >= 1,
    decreases s.len(),
{
    if s.len() >= 2 && !is_space(s[s.len() - 2]) {
        assert(s.drop_last().last() == s[s.len() - 2]);
        lemma_words_last(s.drop_last());
    }
}

/// The length of the non-ASCII white-space character at position `i`, or 0.
fn wide_space_at(text: &[u8], i: usize) -> (r: usize)
    requires
        i < text@.len(),
    ensures
        r as int == wide_space_len(text@.skip(i as int)),
{
    let n = text.len();
    let b0 = text[i];
    let ghost t = text@.skip(i as int);
    proof {
        assert(t[0] == b0);
    }
    if n - i > 1 && b0 == 0xC2 {
        let b1 = text[i + 1];
        proof {
            assert(t[1] == b1);
        }
        if b1 == 0x85 || b1 == 0xA0 {
            return 2;
        }
        return 0;
    }
    if n - i > 2 {
        let b1 = text[i + 1];
        let b2 = text[i + 2];
        proof {
            assert(t[1] == b1 && t[2] == b2);
        }
        if b0 == 0xE1 && b1 == 0x9A && b2 == 0x80 {
            return 3;
        }
        if b0 == 0xE2 && b1 == 0x80 && ((0x80 <= b2 && b2 <= 0x8A) || b2 == 0xA8 || b2 == 0xA9
            || b2 == 0xAF) {
            return 3;
        }
        if b0 == 0xE2 && b1 == 0x81 && b2 == 0x9F {
            return 3;
        }
        if b0 == 0xE3 && b1 == 0x80 && b2 == 0x80 {
            return 3;
        }
    }
    0
}

/// Replaces every non-ASCII white-space character by a space.
pub fn space_wide_whitespace(text: &[u8]) -> (r: Vec<u8>)
    ensures
        r@ == spaced(text@),
{
    let mut out: Vec<u8> = Vec::new();
    let mut i: usize = 0;
    proof {
        assert(text@.skip(0) =~= text@);
    }
    while i < text.len()
        invariant
            0 <= i <= text@.len(),
            out@ + spaced(text@.skip(i as int)) == spaced(text@),
        decreases text@.len() - i,
    {
        let ghost t = text@.skip(i as int);
        let ghost before = out@;
        let w = wide_space_at(text, i);
        if w > 0 {
            out.push(32);
            proof {
                assert(t.skip(w as int) =~= text@.skip(i + w));
                assert(spaced(t) == seq![32u8] + spaced(t.skip(w as int)));
                assert(out@ + spaced(text@.skip(i + w)) =~= before + spaced(t));
            }
            i = i + w;
        } else {
            out.push(text[i]);
            proof {
                assert(t[0] == text@[i as int]);
                assert(t.skip(1) =~= text@.skip(i + 1));
                assert(spaced(t) == seq![t[0]] + spaced(t.skip(1)));
                assert(out@ + spaced(text@.skip(i + 1)) =~= before + spaced(t));
            }
            i = i + 1;
        }
    }
    proof {
        assert(text@.skip(text@.len() as int) =~= Seq::<u8>::empty());
        assert(out@ + spaced(Seq::<u8>::empty()) =~= out@);
    }
    out
}

/// Splits a text into its lines.
pub fn split_lines(s: &Vec<u8>) -> (r: Vec<Vec<u8>>)
    ensures
        byte_seqs(r@) == lines(s@),
{
    let mut out: Vec<Vec<u8>> = Vec::new();
    out.push(Vec::new());
    let mut i: usize = 0;
    proof {
        assert(s@.take(0) =~= Seq::<u8>::empty());
        assert(byte_seqs(out@) =~= lines(s@.take(0)));
    }
    while i < s.len()
        invariant
            0 <= i <= s@.len(),
            out@.len() >= 1,
            byte_seqs(out@) == lines(s@.take(i as int)),
        decreases s@.len() - i,
    {
        let b = s[i];
        let ghost before = byte_seqs(out@);
        proof {
            assert(s@.take(i as int + 1).drop_last() =~= s@.take(i as int));
            assert(s@.take(i as int + 1).last() == b);
        }
        if b == 10 {
            out.push(Vec::new());
            proof {
                assert(byte_seqs(out@) =~= before.push(Seq::empty()));
            }
        } else {
            let mut last = out.pop().unwrap();
            last.push(b);
            out.push(last);
            proof {
                assert(byte_seqs(out@) =~= before.update(before.len() - 1, before.last().push(b)));
            }
        }
        i = i + 1;
    }
    proof {
        assert(s@.take(s@.len() as int) =~= s@);
    }
    out
}

/// Splits a line into its words.
pub fn split_words(s: &Vec<u8>) -> (r: Vec<Vec<u8>>)
    ensures
        byte_seqs(r@) == words(s@),
{
    let mut out: Vec<Vec<u8>> = Vec::new();
    let mut i: usize = 0;
    proof {
        assert(s@.take(0) =~= Seq::<u8>::empty());
        assert(byte_seqs(out@) =~= words(s@.take(0)));
    }
    while i < s.len()
        invariant
            0 <= i <= s@.len(),
            byte_seqs(out@) == words(s@.take(i as int)),
            i > 0 && !is_space(s@[i - 1]) ==> out@.len() >= 1,
        decreases s@.len() - i,
    {
        let b = s[i];
        let ghost before = byte_seqs(out@);
        let ghost t = s@.take(i as int + 1);
        proof {
            assert(t.drop_last() =~= s@.take(i as int));
            assert(t.last() == b);
            if i > 0 {
                assert(t[t.len() - 2] == s@[i - 1]);
            }
        }
        if b == 32 || (9 <= b && b <= 13) {
        } else if i > 0 && !(s[i - 1] == 32 || (9 <= s[i - 1] && s[i - 1] <= 13)) {
            let mut last = out.pop().unwrap();
            last.push(b);
            out.push(last);
            proof {
                assert(byte_seqs(out@) =~= before.update(before.len() - 1, before.last().push(b)));
            }
        } else {
            let mut w: Vec<u8> = Vec::new();
            w.push(b);
            out.push(w);
            proof {
                assert(byte_seqs(out@) =~= before.push(seq![b]));
            }
        }
        i = i + 1;
    }
    proof {
        assert(s@.take(s@.len() as int) =~= s@);
    }
    out
}

proof fn lemma_digits_grow(d: Seq<u8>, k: int)
    requires
        0 <= k <= d.len(),
        forall|i: int| 0 <= i < d.len() ==> 48 <= #[trigger] d[i] <= 57,
    ensures
        digits_value(d.take(k)) <= digits_value(d),
        0 <= digits_value(d.take(k)),
    decreases d.len() - k,
{
    if k < d.len() {
        lemma_digits_grow(d, k + 1);
        assert(d.take(k + 1).drop_last() =~= d.take(k));
        assert(d.take(k + 1).last() == d[k]);
    } else {
        assert(d.take(k) =~= d);
    }
    lemma_digits_nonneg(d.take(k));
}

proof fn lemma_digits_nonneg(d: Seq<u8>)
    requires
        forall|i: int| 0 <= i < d.len() ==> 48 <= #[trigger] d[i] <= 57,
    ensures
        0 <= digits_value(d),
    decreases d.len(),
{
    if d.len() > 0 {
        lemma_digits_nonneg(d.drop_last());
    }
}

/// Reads a word as a 32-bit integer.
pub fn parse_int_word(w: &Vec<u8>) -> (r: Option<i32>)
    ensures
        r == parse_int(w@),
{
    let mut start: usize = 0;
    let negative = w.len() > 0 && w[0] == 45;
    if w.len() > 0 && (w[0] == 45 || w[0] == 43) {
        start = 1;
    }
    let ghost d = if start == 1 {
        w@.skip(1)
    } else {
        w@
    };
    proof {
        assert(w@.skip(0) =~= w@);
    }
    if start == w.len() {
        proof {
            assert(d.len() == 0);
        }
        return None;
    }
    let mut acc: u64 = 0;
    let mut k: usize = start;
    while k < w.len()
        invariant
            start <= k <= w@.len(),
            start == 0 || start == 1,
            (start == 1) == (w@.len() > 0 && (w@[0] == 45 || w@[0] == 43)),
            negative == (w@.len() > 0 && w@[0] == 45),
            d == w@.skip(start as int),
            d == (if start == 1 {
                w@.skip(1)
            } else {
                w@
            }),
            forall|i: int| 0 <= i < k - start ==> 48 <= #[trigger] d[i] <= 57,
            acc == digits_value(d.take(k - start)),
            acc <= 2147483648,
        decreases w@.len() - k,
    {
        let b = w[k];
        let ghost j = k - start;
        proof {
            assert(d[j] == b);
        }
        if b < 48 || b > 57 {
            proof {
                assert(!all_digits(d));
            }
            return None;
        }
        acc = acc * 10 + (b - 48) as u64;
        proof {
            assert(d.take(j + 1).drop_last() =~= d.take(j));
            assert(d.take(j + 1).last() == b);
        }
        k = k + 1;
        if acc > 2147483648 {
            proof {
                if all_digits(d) {
                    lemma_digits_grow(d, (k - start) as int);
                    assert(digits_value(d) > 2147483648);
                }
            }
            return None;
        }
    }
    proof {
        assert(d.take(k - start) =~= d);
        assert(all_digits(d));
    }
    if negative {
        Some((0 - (acc as i64)) as i32)
    } else if acc <= 2147483647 {
        Some(acc as i32)
    } else {
        None
    }
}

/// Reads the clauses of a DIMACS text.
pub fn parse_dimacs(text: &[u8]) -> (r: Vec<Vec<i32>>)
    ensures
        r@.map_values(|c: Vec<i32>| c@) == dimacs_clauses(text@),
{
    let spaced_text = space_wide_whitespace(text);
    let ls = split_lines(&spaced_text);
    let ghost lss = byte_seqs(ls@);
    let mut clauses: Vec<Vec<i32>> = Vec::new();
    let mut current: Vec<i32> = Vec::new();
    let mut i: usize = 0;
    proof {
        assert(lss.take(0) =~= Seq::<Seq<u8>>::empty());
        assert(clauses@.map_values(|c: Vec<i32>| c@) =~= Seq::<Seq<i32>>::empty());
    }
    while i < ls.len()
        invariant
            lss == byte_seqs(ls@),
            lss == lines(spaced(text@)),
            0 <= i <= ls@.len(),
            (clauses@.map_values(|c: Vec<i32>| c@), current@) == grouped(
                text_values(lss.take(i as int)),
            ),
        decreases ls@.len() - i,
    {
        let ws = split_words(&ls[i]);
        let ghost wss = byte_seqs(ws@);
        let ghost prior = text_values(lss.take(i as int));
        proof {
            assert(lss[i as int] == ls@[i as int]@);
            assert(lss.take(i as int + 1).drop_last() =~= lss.take(i as int));
            assert(lss.take(i as int + 1).last() == lss[i as int]);
        }
        let skip = ws.len() > 0 && ws[0].len() > 0 && (ws[0][0] == 99 || ws[0][0] == 112);
        proof {
            if ws@.len() > 0 {
                assert(wss[0] == ws@[0]@);
                lemma_words_nonempty(lss[i as int]);
            }
        }
        if !skip {
            let mut j: usize = 0;
            proof {
                assert(wss.take(0) =~= Seq::<Seq<u8>>::empty());
                assert(prior + word_values(wss.take(0)) =~= prior);
            }
            while j < ws.len()
                invariant
                    wss == byte_seqs(ws@),
                    0 <= j <= ws@.len(),
                    (clauses@.map_values(|c: Vec<i32>| c@), current@) == grouped(
                        prior + word_values(wss.take(j as int)),
                    ),
                decreases ws@.len() - j,
            {
                let ghost fed = prior + word_values(wss.take(j as int));
                proof {
                    assert(wss[j as int] == ws@[j as int]@);
                    assert(wss.take(j as int + 1).drop_last() =~= wss.take(j as int));
                    assert(wss.take(j as int + 1).last() == wss[j as int]);
                }
                match parse_int_word(&ws[j]) {
                    Some(v) => {
                        let ghost before = clauses@.map_values(|c: Vec<i32>| c@);
                        proof {
                            assert(prior + word_values(wss.take(j as int + 1)) =~= fed.push(v));
                            assert(fed.push(v).drop_last() =~= fed);
                        }
                        if v == 0 {
                            if current.len() > 0 {
                                let finished = current;
                                current = Vec::new();
                                proof {
                                    assert(clauses@.map_values(|c: Vec<i32>| c@).push(finished@)
                                        =~= before.push(finished@));
                                }
                                clauses.push(finished);
                                proof {
                                    assert(clauses@.map_values(|c: Vec<i32>| c@) =~= before.push(
                                        finished@,
                                    ));
                                    assert(current@ =~= Seq::<i32>::empty());
                                }
                            }
                        } else {
                            current.push(v);
                        }
                    },
                    None => {
                        proof {
                            assert(prior + word_values(wss.take(j as int + 1)) =~= fed);
                        }
                    },
                }
                j = j + 1;
            }
            proof {
                assert(wss.take(ws@.len() as int) =~= wss);
                assert(wss == words(lss[i as int]));
            }
        }
        i = i + 1;
    }
    proof {
        assert(lss.take(ls@.len() as int) =~= lss);
    }
    if current.len() > 0 {
        let ghost before = clauses@.map_values(|c: Vec<i32>| c@);
        let last = current;
        clauses.push(last);
        proof {
            assert(clauses@.map_values(|c: Vec<i32>| c@) =~= before.push(last@));
        }
    }
    clauses
}

/// Every word is nonempty.
proof fn lemma_words_nonempty(s: Seq<u8>)
    ensures
        forall|i: int| 0 <= i < words(s).len() ==> #[trigger] words(s)[i].len() > 0,
    decreases s.len(),
{
    if s.len() > 0 {
        let w = words(s.drop_last());
        lemma_words_nonempty(s.drop_last());
        if !is_space(s.last()) && s.len() >= 2 && !is_space(s[s.len() - 2]) {
            assert(s.drop_last().last() == s[s.len() - 2]);
            lemma_words_last(s.drop_last());
            assert forall|i: int| 0 <= i < words(s).len() implies #[trigger] words(s)[i].len() > 0 by {
                if i < w.len() - 1 {
                    assert(words(s)[i] == w[i]);
                }
            }
        } else if !is_space(s.last()) {
            assert forall|i: int| 0 <= i < words(s).len() implies #[trigger] words(s)[i].len() > 0 by {
                if i < w.len() {
                    assert(words(s)[i] == w[i]);
                }
            }
        }
    }
}

} // verus!
