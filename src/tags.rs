//! Tags, stored in the catalog as one comma-separated text field.
use vstd::prelude::*;
use crate::text::{chars_of, string_of};

verus! {

/// The character views of a sequence of strings.
pub open spec fn strs(v: Seq<String>) -> Seq<Seq<char>> {
    v.map_values(|s: String| s@)
}

/// The tags that are not empty, in their order.
pub open spec fn keep_nonempty(t: Seq<Seq<char>>) -> Seq<Seq<char>>
    decreases t.len(),
{
    if t.len() == 0 {
        t
    } else if t.last().len() > 0 {
        keep_nonempty(t.drop_last()).push(t.last())
    } else {
        keep_nonempty(t.drop_last())
    }
}

/// The tags joined into one field, a comma between two neighbours.
pub open spec fn join_tags(t: Seq<Seq<char>>) -> Seq<char>
    decreases t.len(),
{
    if t.len() == 0 {
        Seq::empty()
    } else if t.len() == 1 {
        t[0]
    } else {
        join_tags(t.drop_last()) + seq![','] + t.last()
    }
}

/// The pieces of `s` between its commas, empty ones included; at least one.
pub open spec fn split_fields(s: Seq<char>) -> Seq<Seq<char>>
    decreases s.len(),
{
    if s.len() == 0 {
        seq![Seq::empty()]
    } else {
        let r = split_fields(s.drop_last());
        if s.last() == ',' {
            r.push(Seq::empty())
        } else {
            r.update(r.len() - 1, r.last().push(s.last()))
        }
    }
}

/// The tags read back from a stored field: its non-empty comma-separated pieces.
pub open spec fn split_tags(s: Seq<char>) -> Seq<Seq<char>> {
    keep_nonempty(split_fields(s))
}

/// No tag holds the separator.
pub open spec fn comma_free(t: Seq<Seq<char>>) -> bool {
    forall|i: int, j: int| 0 <= i < t.len() && 0 <= j < t[i].len() ==> t[i][j] != ','
}

proof fn lemma_split_fields_nonempty(s: Seq<char>)
    ensures
        split_fields(s).len() >= 1,
    decreases s.len(),
{
    if s.len() > 0 {
        lemma_split_fields_nonempty(s.drop_last());
    }
}

proof fn lemma_split_extend(a: Seq<char>, b: Seq<char>)
    requires
        forall|j: int| 0 <= j < b.len() ==> b[j] != ',',
    ensures
        split_fields(a + b) == split_fields(a).update(
            split_fields(a).len() - 1,
            split_fields(a).last() + b,
        ),
    decreases b.len(),
{
    lemma_split_fields_nonempty(a);
    if b.len() == 0 {
        assert(a + b =~= a);
        assert(split_fields(a).last() + b =~= split_fields(a).last());
        assert(split_fields(a).update(split_fields(a).len() - 1, split_fields(a).last())
            =~= split_fields(a));
    } else {
        let b0 = b.drop_last();
        lemma_split_extend(a, b0);
        assert((a + b).drop_last() =~= a + b0);
        assert((a + b).last() == b.last());
        let r = split_fields(a + b0);
        assert(r.last() =~= split_fields(a).last() + b0);
        assert(r.last().push(b.last()) =~= split_fields(a).last() + b);
        assert(split_fields(a + b) =~= split_fields(a).update(
            split_fields(a).len() - 1,
            split_fields(a).last() + b,
        ));
    }
}

proof fn lemma_split_join(t: Seq<Seq<char>>)
    requires
        t.len() >= 1,
        comma_free(t),
    ensures
        split_fields(join_tags(t)) == t,
    decreases t.len(),
{
    if t.len() == 1 {
        lemma_split_extend(Seq::empty(), t[0]);
        assert(Seq::<char>::empty() + t[0] =~= t[0]);
        assert(split_fields(join_tags(t)) =~= t);
    } else {
        let t0 = t.drop_last();
        assert(comma_free(t0));
        lemma_split_join(t0);
        let a = join_tags(t0) + seq![','];
        assert(a.drop_last() =~= join_tags(t0));
        assert(split_fields(a) == t0.push(Seq::empty()));
        assert(forall|j: int| 0 <= j < t.last().len() ==> t.last()[j] != ',') by {
            assert forall|j: int| 0 <= j < t.last().len() implies t.last()[j] != ',' by {
                assert(t[t.len() - 1][j] != ',');
            }
        }
        lemma_split_extend(a, t.last());
        assert(Seq::<char>::empty() + t.last() =~= t.last());
        assert(split_fields(join_tags(t)) =~= t);
    }
}

/// Tags written to the catalog and read back come out as they went in, in
/// their order, except that empty tags are dropped.
pub proof fn lemma_tags_round_trip(t: Seq<Seq<char>>)
    requires
        comma_free(t),
    ensures
        split_tags(join_tags(t)) == keep_nonempty(t),
{
    if t.len() == 0 {
        assert(split_fields(join_tags(t)) =~= seq![Seq::<char>::empty()]);
        let one = seq![Seq::<char>::empty()];
        assert(one.drop_last() =~= Seq::<Seq<char>>::empty());
        assert(one.last().len() == 0);
        assert(keep_nonempty(one) == keep_nonempty(one.drop_last()));
        assert(keep_nonempty(one) =~= t);
    } else {
        lemma_split_join(t);
    }
}

/// Dropping empty tags twice drops no more than once.
pub proof fn lemma_keep_nonempty_idempotent(t: Seq<Seq<char>>)
    ensures
        keep_nonempty(keep_nonempty(t)) == keep_nonempty(t),
        forall|i: int| 0 <= i < keep_nonempty(t).len() ==> keep_nonempty(t)[i].len() > 0,
        comma_free(t) ==> comma_free(keep_nonempty(t)),
    decreases t.len(),
{
    if t.len() > 0 {
        let t0 = t.drop_last();
        lemma_keep_nonempty_idempotent(t0);
        if t.last().len() > 0 {
            let k = keep_nonempty(t0).push(t.last());
            assert(k.drop_last() =~= keep_nonempty(t0));
            if comma_free(t) {
                assert(comma_free(t0));
                assert forall|i: int, j: int|
                    0 <= i < k.len() && 0 <= j < k[i].len() implies k[i][j] != ',' by {
                    if i == k.len() - 1 {
                        assert(t[t.len() - 1][j] != ',');
                    }
                }
            }
        } else {
            if comma_free(t) {
                assert(comma_free(t0));
            }
        }
    }
}

/// Tags are cleaned of empty ones before they are stored, and reading the
/// stored field back gives exactly the cleaned tags.
pub proof fn lemma_stored_tags_read_back(t: Seq<Seq<char>>)
    requires
        comma_free(t),
    ensures
        split_tags(join_tags(keep_nonempty(t))) == keep_nonempty(t),
{
    lemma_keep_nonempty_idempotent(t);
    lemma_tags_round_trip(keep_nonempty(t));
}

/// Removes the empty tags, keeping the order of the others.
pub fn nonempty_tags(tags: &Vec<String>) -> (r: Vec<String>)
    ensures
        strs(r@) == keep_nonempty(strs(tags@)),
{
    let mut r: Vec<String> = Vec::new();
    let mut i: usize = 0;
    while i < tags.len()
        invariant
            i <= tags@.len(),
            strs(r@) == keep_nonempty(strs(tags@.subrange(0, i as int))),
        decreases tags@.len() - i,
    {
        let t = &tags[i];
        assert(strs(tags@.subrange(0, i + 1)).drop_last() =~= strs(tags@.subrange(0, i as int)));
        if !t.as_str().is_empty() {
            r.push(t.clone());
            assert(strs(r@) =~= keep_nonempty(strs(tags@.subrange(0, i as int))).push(t@));
        }
        i = i + 1;
    }
    assert(tags@.subrange(0, tags@.len() as int) =~= tags@);
    r
}

/// Joins tags into the stored field, a comma between two neighbours.
pub fn join(tags: &Vec<String>) -> (r: String)
    ensures
        r@ == join_tags(strs(tags@)),
{
    let mut out: Vec<char> = Vec::new();
    let mut i: usize = 0;
    while i < tags.len()
        invariant
            i <= tags@.len(),
            out@ == join_tags(strs(tags@.subrange(0, i as int))),
        decreases tags@.len() - i,
    {
        let cs = chars_of(tags[i].as_str());
        assert(strs(tags@.subrange(0, i + 1)).drop_last() =~= strs(tags@.subrange(0, i as int)));
        if i > 0 {
            out.push(',');
        }
        let ghost base = out@;
        let mut k: usize = 0;
        while k < cs.len()
            invariant
                k <= cs@.len(),
                out@ == base + cs@.subrange(0, k as int),
            decreases cs@.len() - k,
        {
            out.push(cs[k]);
            assert(base + cs@.subrange(0, k + 1) =~= (base + cs@.subrange(0, k as int)).push(
                cs[k as int],
            ));
            k = k + 1;
        }
        assert(cs@.subrange(0, cs@.len() as int) =~= cs@);
        if i == 0 {
            assert(out@ =~= join_tags(strs(tags@.subrange(0, 1))));
        } else {
            assert(out@ =~= join_tags(strs(tags@.subrange(0, i + 1))));
        }
        i = i + 1;
    }
    assert(tags@.subrange(0, tags@.len() as int) =~= tags@);
    string_of(&out)
}

/// Reads tags back from the stored field: its non-empty comma-separated pieces.
pub fn split(field: &str) -> (r: Vec<String>)
    ensures
        strs(r@) == split_tags(field@),
{
    let v = chars_of(field);
    let mut cur: Vec<char> = Vec::new();
    let mut done: Vec<String> = Vec::new();
    let ghost mut raw: Seq<Seq<char>> = Seq::empty();
    let mut i: usize = 0;
    assert(v@.subrange(0, 0) =~= Seq::<char>::empty());
    assert(split_fields(Seq::empty()) =~= raw.push(cur@));
    while i < v.len()
        invariant
            i <= v@.len(),
            split_fields(v@.subrange(0, i as int)) == raw.push(cur@),
            strs(done@) == keep_nonempty(raw),
        decreases v@.len() - i,
    {
        let c = v[i];
        assert(v@.subrange(0, i + 1).drop_last() =~= v@.subrange(0, i as int));
        if c == ',' {
            if cur.len() > 0 {
                let s = string_of(&cur);
                done.push(s);
                assert(raw.push(cur@).drop_last() =~= raw);
                assert(strs(done@) =~= keep_nonempty(raw.push(cur@)));
            } else {
                assert(raw.push(cur@).drop_last() =~= raw);
            }
            proof {
                raw = raw.push(cur@);
            }
            cur = Vec::new();
            assert(split_fields(v@.subrange(0, i + 1)) =~= raw.push(cur@));
        } else {
            cur.push(c);
            assert(split_fields(v@.subrange(0, i + 1)) =~= raw.push(cur@));
        }
        i = i + 1;
    }
    assert(v@.subrange(0, v@.len() as int) =~= v@);
    assert(raw.push(cur@).drop_last() =~= raw);
    if cur.len() > 0 {
        let s = string_of(&cur);
        done.push(s);
        assert(strs(done@) =~= keep_nonempty(raw.push(cur@)));
    }
    done
}

} // verus!
