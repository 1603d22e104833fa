use vstd::prelude::*;
use crate::bytes::{bytes_eq, records, records_of, split_fields, split_on};

verus! {

/// The keys contributed by the persisted records, in order: each record with
/// at least three columns yields its first column (the commit sha) paired
/// with its third (the builder name).
pub open spec fn keys_of_records(rs: Seq<Seq<u8>>) -> Seq<(Seq<u8>, Seq<u8>)>
    decreases rs.len(),
{
    if rs.len() == 0 {
        Seq::<(Seq<u8>, Seq<u8>)>::empty()
    } else {
        keys_of_records(rs.drop_last()) + (if split_on(rs.last(), 44).len() >= 3 {
            seq![(split_on(rs.last(), 44)[0], split_on(rs.last(), 44)[2])]
        } else {
            Seq::<(Seq<u8>, Seq<u8>)>::empty()
        })
    }
}

/// The resume keys a persisted dataset reconstructs to.
pub open spec fn resume_keys(s: Seq<u8>) -> Seq<(Seq<u8>, Seq<u8>)> {
    keys_of_records(records(s))
}

/// The set of `(commit sha, builder)` pairs already completed, reconstructed
/// from the persisted dataset at startup and read-only for the rest of the
/// run.
pub struct ResumeSet {
    pub keys: Vec<(Vec<u8>, Vec<u8>)>,
}

impl View for ResumeSet {
    type V = Seq<(Seq<u8>, Seq<u8>)>;

    open spec fn view(&self) -> Seq<(Seq<u8>, Seq<u8>)> {
        self.keys@.map_values(|p: (Vec<u8>, Vec<u8>)| (p.0@, p.1@))
    }
}

impl ResumeSet {
    /// The empty resume set: nothing completed yet.
    pub fn new() -> (r: ResumeSet)
        ensures
            r@ == Seq::<(Seq<u8>, Seq<u8>)>::empty(),
    {
        let r = ResumeSet { keys: Vec::new() };
        proof {
            assert(r@ =~= Seq::<(Seq<u8>, Seq<u8>)>::empty());
        }
        r
    }

    /// Reconstructs the resume set from the bytes of the persisted dataset,
    /// as `resume_keys` says: records missing a third column are skipped,
    /// never an error.
    pub fn load(s: &[u8]) -> (r: ResumeSet)
        ensures
            r@ == resume_keys(s@),
    {
        let recs = records_of(s);
        let n = recs.len();
        let mut keys: Vec<(Vec<u8>, Vec<u8>)> = Vec::new();
        let mut i: usize = 0;
        proof {
            assert(records(s@).take(0) =~= Seq::<Seq<u8>>::empty());
            assert(keys@.map_values(|p: (Vec<u8>, Vec<u8>)| (p.0@, p.1@)) =~= keys_of_records(
                records(s@).take(0),
            ));
        }
        while i < n
            invariant
                recs.deep_view() == records(s@),
                n == recs@.len(),
                i <= n,
                keys@.map_values(|p: (Vec<u8>, Vec<u8>)| (p.0@, p.1@)) == keys_of_records(
                    records(s@).take(i as int),
                ),
            decreases n - i,
        {
            let ghost rec = records(s@)[i as int];
            let line: &Vec<u8> = &recs[i];
            proof {
                assert(line.deep_view() =~= line@);
                assert(line@ == rec);
                assert(records(s@).take(i + 1).drop_last() =~= records(s@).take(i as int));
                assert(records(s@).take(i + 1).last() == rec);
            }
            let mut fields = split_fields(line.as_slice());
            let ghost before = keys@.map_values(|p: (Vec<u8>, Vec<u8>)| (p.0@, p.1@));
            if fields.len() >= 3 {
                let builder = fields.swap_remove(2);
                let sha = fields.swap_remove(0);
                proof {
                    assert(builder.deep_view() =~= builder@);
                    assert(sha.deep_view() =~= sha@);
                    assert(sha@ == split_on(rec, 44)[0]);
                    assert(builder@ == split_on(rec, 44)[2]);
                }
                keys.push((sha, builder));
                proof {
                    assert(keys@.map_values(|p: (Vec<u8>, Vec<u8>)| (p.0@, p.1@)) =~= before
                        + seq![(split_on(rec, 44)[0], split_on(rec, 44)[2])]);
                }
            } else {
                proof {
                    assert(keys@.map_values(|p: (Vec<u8>, Vec<u8>)| (p.0@, p.1@)) =~= before
                        + Seq::<(Seq<u8>, Seq<u8>)>::empty());
                }
            }
            i += 1;
        }
        proof {
            assert(records(s@).take(n as int) =~= records(s@));
        }
        ResumeSet { keys }
    }

    /// Whether this exact `(commit sha, builder)` key was already completed.
    pub fn contains_key(&self, sha: &Vec<u8>, builder: &Vec<u8>) -> (r: bool)
        ensures
            r == self@.contains((sha@, builder@)),
    {
        let mut i: usize = 0;
        while i < self.keys.len()
            invariant
                i <= self.keys@.len(),
                forall|j: int| 0 <= j < i ==> self@[j] != (sha@, builder@),
            decreases self.keys@.len() - i,
        {
            let hit = bytes_eq(&self.keys[i].0, sha) && bytes_eq(&self.keys[i].1, builder);
            if hit {
                proof {
                    assert(self@[i as int] == (sha@, builder@));
                }
                return true;
            }
            i += 1;
        }
        proof {
            assert(!self@.contains((sha@, builder@))) by {
                if self@.contains((sha@, builder@)) {
                    let w = choose|w: int|
                        0 <= w < self@.len() && self@[w] == (sha@, builder@);
                    assert(self@[w] != (sha@, builder@));
                }
            }
        }
        false
    }

    /// How many keys the set holds; zero means nothing was completed yet.
    pub fn is_empty(&self) -> (r: bool)
        ensures
            r == (self@.len() == 0),
    {
        self.keys.len() == 0
    }

    pub fn len(&self) -> (r: usize)
        ensures
            r == self@.len(),
    {
        self.keys.len()
    }
}

} // verus!
