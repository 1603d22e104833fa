use vstd::prelude::*;

verus! {

/// Index of the first occurrence of `sep` in `s`, or `s.len()` if `sep` does
/// not occur.
pub open spec fn first_ix(s: Seq<u8>, sep: u8) -> nat
    decreases s.len(),
{
    if s.len() == 0 {
        0
    } else if s[0] == sep {
        0
    } else {
        1 + first_ix(s.drop_first(), sep)
    }
}

pub proof fn lemma_first_ix(s: Seq<u8>, sep: u8)
    ensures
        first_ix(s, sep) <= s.len(),
        forall|j: int| 0 <= j < first_ix(s, sep) ==> s[j] != sep,
        first_ix(s, sep) < s.len() ==> s[first_ix(s, sep) as int] == sep,
    decreases s.len(),
{
    if s.len() != 0 && s[0] != sep {
        lemma_first_ix(s.drop_first(), sep);
        assert forall|j: int| 0 <= j < first_ix(s, sep) implies s[j] != sep by {
            if j > 0 {
                assert(s.drop_first()[j - 1] != sep);
            }
        }
    }
}

/// `s` split on every occurrence of `sep`; an empty input is one empty field.
pub open spec fn split_on(s: Seq<u8>, sep: u8) -> Seq<Seq<u8>>
    decreases s.len(),
{
    let i = first_ix(s, sep);
    if i >= s.len() {
        seq![s]
    } else {
        seq![s.take(i as int)] + split_on(s.subrange(i as int + 1, s.len() as int), sep)
    }
}

/// Unfolds `split_on` at a position `i` known to hold the first separator
/// (or to be the end, when there is none).
pub proof fn lemma_split_on_step(s: Seq<u8>, sep: u8, i: int)
    requires
        0 <= i <= s.len(),
        forall|j: int| 0 <= j < i ==> s[j] != sep,
        i < s.len() ==> s[i] == sep,
    ensures
        i < s.len() ==> split_on(s, sep) == seq![s.take(i)] + split_on(
            s.subrange(i as int + 1, s.len() as int),
            sep,
        ),
        i == s.len() ==> split_on(s, sep) == seq![s],
{
    lemma_first_ix(s, sep);
    assert(first_ix(s, sep) == i);
}

/// A line with one trailing carriage return removed, so that records ended by
/// a bare newline and records ended by a carriage return and newline read the
/// same.
pub open spec fn trim_cr(l: Seq<u8>) -> Seq<u8> {
    if l.len() > 0 && l.last() == 13 {
        l.drop_last()
    } else {
        l
    }
}

/// What one raw line contributes to the record list: itself, stripped of a
/// trailing carriage return, unless it is then blank.
pub open spec fn line_records(l: Seq<u8>) -> Seq<Seq<u8>> {
    if trim_cr(l).len() > 0 {
        seq![trim_cr(l)]
    } else {
        Seq::<Seq<u8>>::empty()
    }
}

/// The records of a tabular payload: `s` is split on each newline, each line
/// is stripped of a trailing carriage return, and blank lines are dropped.
pub open spec fn records(s: Seq<u8>) -> Seq<Seq<u8>>
    decreases s.len(),
{
    let i = first_ix(s, 10);
    if i >= s.len() {
        line_records(s)
    } else {
        line_records(s.take(i as int)) + records(s.subrange(i as int + 1, s.len() as int))
    }
}

/// Unfolds `records` at a position `i` known to hold the first newline (or to
/// be the end, when there is none).
pub proof fn lemma_records_step(s: Seq<u8>, i: int)
    requires
        0 <= i <= s.len(),
        forall|j: int| 0 <= j < i ==> s[j] != 10,
        i < s.len() ==> s[i] == 10,
    ensures
        i < s.len() ==> records(s) == line_records(s.take(i)) + records(
            s.subrange(i as int + 1, s.len() as int),
        ),
        i == s.len() ==> records(s) == line_records(s),
{
    lemma_first_ix(s, 10);
    assert(first_ix(s, 10) == i);
}

/// Whether two byte vectors hold the same bytes.
pub fn bytes_eq(a: &Vec<u8>, b: &Vec<u8>) -> (r: bool)
    ensures
        r == (a@ == b@),
{
    slices_eq(a.as_slice(), b.as_slice())
}

/// Whether two byte slices hold the same bytes.
pub fn slices_eq(a: &[u8], b: &[u8]) -> (r: bool)
    ensures
        r == (a@ == b@),
{
    if a.len() != b.len() {
        return false;
    }
    let mut i: usize = 0;
    while i < a.len()
        invariant
            i <= a@.len(),
            a@.len() == b@.len(),
            forall|j: int| 0 <= j < i ==> a@[j] == b@[j],
        decreases a@.len() - i,
    {
        if a[i] != b[i] {
            return false;
        }
        i += 1;
    }
    proof {
        assert(a@ =~= b@);
    }
    true
}

/// Appends every byte of the slice.
pub fn push_slice(out: &mut Vec<u8>, b: &[u8])
    ensures
        final(out)@ == old(out)@ + b@,
{
    let mut i: usize = 0;
    while i < b.len()
        invariant
            i <= b@.len(),
            out@ == old(out)@ + b@.take(i as int),
        decreases b@.len() - i,
    {
        out.push(b[i]);
        proof {
            assert(old(out)@ + b@.take(i + 1) =~= (old(out)@ + b@.take(i as int)).push(
                b@[i as int],
            ));
        }
        i += 1;
    }
    proof {
        assert(b@.take(b@.len() as int) =~= b@);
    }
}

/// A fresh vector holding the same bytes.
pub fn clone_bytes(a: &Vec<u8>) -> (r: Vec<u8>)
    ensures
        r@ == a@,
{
    let mut r: Vec<u8> = Vec::new();
    let mut i: usize = 0;
    while i < a.len()
        invariant
            i <= a@.len(),
            r@ == a@.take(i as int),
        decreases a@.len() - i,
    {
        r.push(a[i]);
        proof {
            assert(a@.take(i + 1) =~= a@.take(i as int).push(a@[i as int]));
        }
        i += 1;
    }
    proof {
        assert(a@.take(a@.len() as int) =~= a@);
    }
    r
}

/// Appends one raw line to a record list as `line_records` says.
fn finish_record(out: &mut Vec<Vec<u8>>, line: Vec<u8>)
    ensures
        final(out).deep_view() == old(out).deep_view() + line_records(line@),
{
    let ghost l0 = line@;
    let mut line = line;
    if line.len() > 0 && line[line.len() - 1] == 13 {
        let n = line.len() - 1;
        line.truncate(n);
        proof {
            assert(line@ =~= trim_cr(l0));
        }
    }
    proof {
        assert(line@ == trim_cr(l0));
    }
    if line.len() > 0 {
        let ghost before = out.deep_view();
        let ghost l = line@;
        proof {
            assert(line.deep_view() =~= l);
        }
        out.push(line);
        proof {
            assert(out.deep_view() =~= before + seq![l]);
        }
    } else {
        proof {
            assert(out.deep_view() =~= out.deep_view() + line_records(l0));
        }
    }
}

/// The records of `s`, executably: split on newlines, trailing carriage
/// returns stripped, blank lines dropped.
pub fn records_of(s: &[u8]) -> (out: Vec<Vec<u8>>)
    ensures
        out.deep_view() == records(s@),
{
    let mut out: Vec<Vec<u8>> = Vec::new();
    let mut cur: Vec<u8> = Vec::new();
    let ghost mut seg_start: int = 0;
    let mut i: usize = 0;
    proof {
        assert(out.deep_view() =~= Seq::<Seq<u8>>::empty());
        assert(s@.subrange(0, s@.len() as int) =~= s@);
        assert(Seq::<Seq<u8>>::empty() + records(s@) =~= records(s@));
        assert(cur@ =~= s@.subrange(0, 0));
    }
    while i < s.len()
        invariant
            0 <= seg_start <= i <= s@.len(),
            cur@ == s@.subrange(seg_start, i as int),
            forall|j: int| seg_start <= j < i ==> s@[j] != 10,
            records(s@) == out.deep_view() + records(s@.subrange(seg_start, s@.len() as int)),
        decreases s@.len() - i,
    {
        if s[i] == 10 {
            let ghost dv0 = out.deep_view();
            let ghost c = cur@;
            let ghost rest = s@.subrange(i + 1, s@.len() as int);
            proof {
                let suffix = s@.subrange(seg_start, s@.len() as int);
                lemma_records_step(suffix, i - seg_start);
                assert(suffix.take(i - seg_start) =~= cur@);
                assert(suffix.subrange(i - seg_start + 1, suffix.len() as int) =~= rest);
            }
            finish_record(&mut out, cur);
            cur = Vec::new();
            proof {
                assert((dv0 + line_records(c)) + records(rest) =~= dv0 + (line_records(c)
                    + records(rest)));
                seg_start = i + 1;
                assert(cur@ =~= s@.subrange(seg_start, i + 1));
            }
        } else {
            cur.push(s[i]);
            proof {
                assert(cur@ =~= s@.subrange(seg_start, i + 1));
            }
        }
        i += 1;
    }
    proof {
        let suffix = s@.subrange(seg_start, s@.len() as int);
        lemma_records_step(suffix, suffix.len() as int);
        assert(suffix =~= cur@);
    }
    finish_record(&mut out, cur);
    out
}

/// The fields of one record, executably: split on every comma.
pub fn split_fields(l: &[u8]) -> (out: Vec<Vec<u8>>)
    ensures
        out.deep_view() == split_on(l@, 44),
{
    let mut out: Vec<Vec<u8>> = Vec::new();
    let mut cur: Vec<u8> = Vec::new();
    let ghost mut seg_start: int = 0;
    let mut i: usize = 0;
    proof {
        assert(out.deep_view() =~= Seq::<Seq<u8>>::empty());
        assert(l@.subrange(0, l@.len() as int) =~= l@);
        assert(Seq::<Seq<u8>>::empty() + split_on(l@, 44) =~= split_on(l@, 44));
        assert(cur@ =~= l@.subrange(0, 0));
    }
    while i < l.len()
        invariant
            0 <= seg_start <= i <= l@.len(),
            cur@ == l@.subrange(seg_start, i as int),
            forall|j: int| seg_start <= j < i ==> l@[j] != 44,
            split_on(l@, 44) == out.deep_view() + split_on(
                l@.subrange(seg_start, l@.len() as int),
                44,
            ),
        decreases l@.len() - i,
    {
        if l[i] == 44 {
            let ghost dv0 = out.deep_view();
            let ghost c = cur@;
            let ghost rest = l@.subrange(i + 1, l@.len() as int);
            proof {
                let suffix = l@.subrange(seg_start, l@.len() as int);
                lemma_split_on_step(suffix, 44, i - seg_start);
                assert(suffix.take(i - seg_start) =~= cur@);
                assert(suffix.subrange(i - seg_start + 1, suffix.len() as int) =~= rest);
                assert(cur.deep_view() =~= c);
            }
            out.push(cur);
            cur = Vec::new();
            proof {
                assert(out.deep_view() =~= dv0 + seq![c]);
                assert((dv0 + seq![c]) + split_on(rest, 44) =~= dv0 + (seq![c] + split_on(
                    rest,
                    44,
                )));
                seg_start = i + 1;
                assert(cur@ =~= l@.subrange(seg_start, i + 1));
            }
        } else {
            cur.push(l[i]);
            proof {
                assert(cur@ =~= l@.subrange(seg_start, i + 1));
            }
        }
        i += 1;
    }
    proof {
        let suffix = l@.subrange(seg_start, l@.len() as int);
        lemma_split_on_step(suffix, 44, suffix.len() as int);
        assert(suffix =~= cur@);
        assert(cur.deep_view() =~= cur@);
    }
    let ghost dv0 = out.deep_view();
    let ghost c = cur@;
    out.push(cur);
    proof {
        assert(out.deep_view() =~= dv0 + seq![c]);
    }
    out
}

} // verus!
