//! Filtering the catalog by name and tag, and its order: by name, ignoring
//! the case of ASCII letters.
use vstd::prelude::*;
use crate::catalog::{Record, Row, index_of, lemma_index_of, row_of, rows_of, unique_names};
use crate::text::chars_of;

verus! {

/// An ASCII capital folded to its small letter; the code of any other character as it is.
pub open spec fn fold(c: char) -> u32 {
    if 'A' <= c && c <= 'Z' {
        (c as u32 + 32) as u32
    } else {
        c as u32
    }
}

/// The case-folded codes of a text, by which names are compared.
pub open spec fn key(s: Seq<char>) -> Seq<u32> {
    s.map_values(|c: char| fold(c))
}

/// Lexicographic order on codes: a prefix comes first.
pub open spec fn lex_le(a: Seq<u32>, b: Seq<u32>) -> bool
    decreases a.len(),
{
    if a.len() == 0 {
        true
    } else if b.len() == 0 {
        false
    } else if a[0] != b[0] {
        a[0] < b[0]
    } else {
        lex_le(a.drop_first(), b.drop_first())
    }
}

/// `needle` occurs in `hay`, ASCII letters compared without case.
pub open spec fn contains_ci(hay: Seq<char>, needle: Seq<char>) -> bool {
    exists|i: int|
        0 <= i && i + needle.len() <= hay.len() && #[trigger] key(hay).subrange(
            i,
            i + needle.len(),
        ) == key(needle)
}

/// A row passes the filters that are given; an absent filter passes every row.
pub open spec fn row_matches(r: Row, name_q: Option<Seq<char>>, tag_q: Option<Seq<char>>) -> bool {
    (name_q matches Some(n) ==> contains_ci(r.0, n)) && (tag_q matches Some(t) ==> contains_ci(
        r.1,
        t,
    ))
}

/// The rows that pass the filters, in catalog order.
pub open spec fn matching(c: Seq<Row>, name_q: Option<Seq<char>>, tag_q: Option<Seq<char>>) -> Seq<
    Row,
> {
    c.filter(|r: Row| row_matches(r, name_q, tag_q))
}

/// Rows ordered by name, ASCII case ignored.
pub open spec fn sorted_by_name(s: Seq<Row>) -> bool {
    forall|i: int, j: int| 0 <= i < j < s.len() ==> lex_le(key(s[i].0), key(s[j].0))
}

/// Rows whose names are equal up to ASCII case come in the order in which
/// the catalog `c` holds them.
pub open spec fn ties_in_catalog_order(s: Seq<Row>, c: Seq<Row>) -> bool {
    forall|i: int, j: int|
        0 <= i < j < s.len() && key(s[i].0) == key(s[j].0) ==> index_of(c, s[i].0) < index_of(
            c,
            s[j].0,
        )
}

/// Every text is ordered with itself.
pub proof fn lemma_lex_refl(a: Seq<u32>)
    ensures
        lex_le(a, a),
    decreases a.len(),
{
    if a.len() > 0 {
        lemma_lex_refl(a.drop_first());
    }
}

/// Any two texts are ordered one way or the other.
pub proof fn lemma_lex_total(a: Seq<u32>, b: Seq<u32>)
    ensures
        lex_le(a, b) || lex_le(b, a),
    decreases a.len(),
{
    if a.len() > 0 && b.len() > 0 && a[0] == b[0] {
        lemma_lex_total(a.drop_first(), b.drop_first());
    }
}

/// The order on texts is transitive.
pub proof fn lemma_lex_trans(a: Seq<u32>, b: Seq<u32>, c: Seq<u32>)
    requires
        lex_le(a, b),
        lex_le(b, c),
    ensures
        lex_le(a, c),
    decreases a.len(),
{
    if a.len() > 0 && b.len() > 0 && c.len() > 0 && a[0] == b[0] && b[0] == c[0] {
        lemma_lex_trans(a.drop_first(), b.drop_first(), c.drop_first());
    }
}

/// The folded code of `c`.
fn fold_exec(c: char) -> (r: u32)
    ensures
        r == fold(c),
{
    if 'A' <= c && c <= 'Z' {
        c as u32 + 32
    } else {
        c as u32
    }
}

/// Whether `a` comes before `b` or ties with it, ASCII case ignored.
pub fn name_le(a: &String, b: &String) -> (r: bool)
    ensures
        r == lex_le(key(a@), key(b@)),
{
    let x = chars_of(a.as_str());
    let y = chars_of(b.as_str());
    let ghost ka = key(x@);
    let ghost kb = key(y@);
    let mut i: usize = 0;
    assert(ka.skip(0) =~= ka);
    assert(kb.skip(0) =~= kb);
    while i < x.len() && i < y.len() && fold_exec(x[i]) == fold_exec(y[i])
        invariant
            i <= x@.len(),
            i <= y@.len(),
            ka == key(x@),
            kb == key(y@),
            x@ == a@,
            y@ == b@,
            lex_le(ka, kb) == lex_le(ka.skip(i as int), kb.skip(i as int)),
        decreases x@.len() - i,
    {
        assert(ka.skip(i as int).drop_first() =~= ka.skip(i + 1));
        assert(kb.skip(i as int).drop_first() =~= kb.skip(i + 1));
        i = i + 1;
    }
    assert(ka.skip(0) =~= ka);
    if i == x.len() {
        true
    } else if i == y.len() {
        false
    } else {
        fold_exec(x[i]) < fold_exec(y[i])
    }
}

/// Whether `needle` occurs in `hay`, ASCII case ignored.
pub fn contains_folded(hay: &String, needle: &String) -> (r: bool)
    ensures
        r == contains_ci(hay@, needle@),
{
    let h = chars_of(hay.as_str());
    let n = chars_of(needle.as_str());
    let ghost kh = key(h@);
    let ghost kn = key(n@);
    if n.len() > h.len() {
        return false;
    }
    let mut i: usize = 0;
    while i <= h.len() - n.len()
        invariant
            n@.len() <= h@.len(),
            i <= h@.len() - n@.len() + 1,
            kh == key(h@),
            kn == key(n@),
            h@ == hay@,
            n@ == needle@,
            forall|p: int| 0 <= p < i ==> #[trigger] kh.subrange(p, p + n@.len()) != kn,
        decreases h@.len() - i,
    {
        let mut j: usize = 0;
        while j < n.len() && fold_exec(h[i + j]) == fold_exec(n[j])
            invariant
                i + n@.len() <= h@.len(),
                h@.len() <= usize::MAX,
                j <= n@.len(),
                kh == key(h@),
                kn == key(n@),
                h@ == hay@,
                n@ == needle@,
                forall|q: int| 0 <= q < j ==> kh[i + q] == kn[q],
            decreases n@.len() - j,
        {
            j = j + 1;
        }
        if j == n.len() {
            assert(kh.subrange(i as int, i + n@.len()) =~= kn);
            assert(key(hay@).subrange(i as int, i + needle@.len()) == key(needle@));
            return true;
        }
        assert(kh.subrange(i as int, i + n@.len())[j as int] != kn[j as int]);
        i = i + 1;
    }
    assert forall|p: int| 0 <= p && p + n@.len() <= h@.len() implies #[trigger] key(h@).subrange(
        p,
        p + n@.len(),
    ) != key(n@) by {
        assert(p < i);
    }
    false
}

/// Whether the row passes the filters that are given.
fn passes(r: &Record, name_q: &Option<String>, tag_q: &Option<String>) -> (b: bool)
    ensures
        b == row_matches(row_of(*r), opt_view(*name_q), opt_view(*tag_q)),
{
    let by_name = match name_q {
        Some(n) => contains_folded(&r.name, n),
        None => true,
    };
    let by_tag = match tag_q {
        Some(t) => contains_folded(&r.tags, t),
        None => true,
    };
    by_name && by_tag
}

/// The character view of an optional filter.
pub open spec fn opt_view(o: Option<String>) -> Option<Seq<char>> {
    match o {
        Some(s) => Some(s@),
        None => None,
    }
}

/// The rows that pass the filters, ordered by name with ASCII case ignored;
/// rows whose names tie that way keep their order in `rows`.
pub fn select_rows(rows: &Vec<Record>, name_q: &Option<String>, tag_q: &Option<String>) -> (r:
    Vec<Record>)
    requires
        unique_names(rows_of(rows@)),
    ensures
        sorted_by_name(rows_of(r@)),
        ties_in_catalog_order(rows_of(r@), rows_of(rows@)),
        rows_of(r@).to_multiset() == matching(rows_of(rows@), opt_view(*name_q), opt_view(
            *tag_q,
        )).to_multiset(),
{
    broadcast use vstd::seq_lib::group_to_multiset_ensures;

    let ghost pred = |x: Row| row_matches(x, opt_view(*name_q), opt_view(*tag_q));
    let mut out: Vec<Record> = Vec::new();
    let ghost mut pos: Seq<int> = Seq::empty();
    let mut i: usize = 0;
    while i < rows.len()
        invariant
            i <= rows@.len(),
            unique_names(rows_of(rows@)),
            pos.len() == out@.len(),
            forall|q: int|
                0 <= q < pos.len() ==> 0 <= #[trigger] pos[q] < i && rows_of(out@)[q] == rows_of(
                    rows@,
                )[pos[q]],
            forall|a: int, b: int|
                0 <= a < b < pos.len() && key(rows_of(out@)[a].0) == key(rows_of(out@)[b].0)
                    ==> pos[a] < pos[b],
            pred == (|x: Row| row_matches(x, opt_view(*name_q), opt_view(*tag_q))),
            sorted_by_name(rows_of(out@)),
            rows_of(out@).to_multiset() == rows_of(rows@).subrange(0, i as int).filter(
                pred,
            ).to_multiset(),
        decreases rows@.len() - i,
    {
        let ghost before = rows_of(rows@).subrange(0, i as int);
        assert(rows_of(rows@).subrange(0, i + 1) =~= before.push(row_of(rows@[i as int])));
        proof {
            before.lemma_filter_push(row_of(rows@[i as int]), pred);
        }
        let ok = passes(&rows[i], name_q, tag_q);
        proof {
            let fx = before.filter(pred);
            fx.to_multiset_ensures();
            assert(pred(row_of(rows@[i as int])) == ok);
            if ok {
                assert(rows_of(rows@).subrange(0, i + 1).filter(pred) == fx.push(
                    row_of(rows@[i as int]),
                ));
                assert(fx.push(row_of(rows@[i as int])).to_multiset() =~= fx.to_multiset().insert(
                    row_of(rows@[i as int]),
                ));
            } else {
                assert(rows_of(rows@).subrange(0, i + 1).filter(pred) == fx);
            }
        }
        if ok {
            let rec = Record { name: rows[i].name.clone(), tags: rows[i].tags.clone() };
            let mut k: usize = 0;
            while k < out.len() && name_le(&out[k].name, &rec.name)
                invariant
                    k <= out@.len(),
                    forall|p: int| 0 <= p < k ==> lex_le(key(out@[p].name@), key(rec.name@)),
                decreases out@.len() - k,
            {
                k = k + 1;
            }
            let ghost old_out = rows_of(out@);
            let ghost x = row_of(rec);
            assert(x == row_of(rows@[i as int]));
            if k < out.len() {
                proof {
                    lemma_lex_total(key(out@[k as int].name@), key(rec.name@));
                }
            }
            let ghost old_pos = pos;
            out.insert(k, rec);
            proof {
                pos = old_pos.insert(k as int, i as int);
            }
            assert(rows_of(out@) =~= old_out.insert(k as int, x));
            assert forall|q: int| 0 <= q < pos.len() implies 0 <= #[trigger] pos[q] < i + 1
                && rows_of(out@)[q] == rows_of(rows@)[pos[q]] by {
                if q < k {
                    assert(pos[q] == old_pos[q]);
                } else if q > k {
                    assert(pos[q] == old_pos[q - 1]);
                }
            }
            assert forall|a: int, b: int|
                0 <= a < b < pos.len() && key(rows_of(out@)[a].0) == key(rows_of(out@)[b].0)
                    implies pos[a] < pos[b] by {
                let s = rows_of(out@);
                if b == k {
                    assert(pos[a] == old_pos[a]);
                } else if a == k {
                    assert(s[b] == old_out[b - 1]);
                    lemma_lex_refl(key(x.0));
                    if b - 1 > k {
                        assert(lex_le(key(old_out[k as int].0), key(old_out[b - 1].0)));
                    }
                    assert(false);
                } else if b < k {
                    assert(s[a] == old_out[a] && s[b] == old_out[b]);
                } else if a < k {
                    assert(s[a] == old_out[a] && s[b] == old_out[b - 1]);
                } else {
                    assert(s[a] == old_out[a - 1] && s[b] == old_out[b - 1]);
                }
            }
            assert(old_out.insert(k as int, x).remove(k as int) =~= old_out);
            proof {
                let s = rows_of(out@);
                assert(s[k as int] == x);
                s.to_multiset_ensures();
                assert(s.remove(k as int).to_multiset() =~= s.to_multiset().remove(x));
                assert(s.contains(x));
                assert(s.to_multiset().count(x) > 0);
                assert(s.to_multiset() =~= old_out.to_multiset().insert(x));
            }
            assert forall|a: int, b: int| 0 <= a < b < rows_of(out@).len() implies lex_le(
                key(rows_of(out@)[a].0),
                key(rows_of(out@)[b].0),
            ) by {
                let s = rows_of(out@);
                if b < k {
                    assert(s[a] == old_out[a] && s[b] == old_out[b]);
                } else if b == k {
                    assert(s[a] == old_out[a]);
                } else if a == k {
                    assert(s[b] == old_out[b - 1]);
                    if b - 1 > k {
                        lemma_lex_trans(key(x.0), key(old_out[k as int].0), key(old_out[b - 1].0));
                    }
                } else if a < k {
                    assert(s[a] == old_out[a] && s[b] == old_out[b - 1]);
                } else {
                    assert(s[a] == old_out[a - 1] && s[b] == old_out[b - 1]);
                }
            }
        }
        i = i + 1;
    }
    assert(rows_of(rows@).subrange(0, rows@.len() as int) =~= rows_of(rows@));
    assert forall|q: int| 0 <= q < pos.len() implies index_of(rows_of(rows@), rows_of(out@)[q].0)
        == pos[q] by {
        lemma_index_of(rows_of(rows@), pos[q]);
    }
    assert forall|a: int, b: int|
        0 <= a < b < rows_of(out@).len() && key(rows_of(out@)[a].0) == key(rows_of(out@)[b].0)
            implies index_of(rows_of(rows@), rows_of(out@)[a].0) < index_of(
        rows_of(rows@),
        rows_of(out@)[b].0,
    ) by {
        assert(index_of(rows_of(rows@), rows_of(out@)[a].0) == pos[a]);
        assert(index_of(rows_of(rows@), rows_of(out@)[b].0) == pos[b]);
    }
    out
}

} // verus!
