//! Deterministic root-entity resolution.
//!
//! The root entity of a dataset is the entity of the fact with the
//! smallest timestamp; among facts sharing that timestamp, the one whose
//! entity has the lexicographically smallest canonical text wins. The
//! choice is a function of the full set of fact rows, independent of the
//! order the engine hands them back in.

use vstd::prelude::*;

use crate::errors::StoreError;
use crate::text::string_chars;

verus! {

/// The (timestamp, entity text) pair of one fact row.
#[derive(Debug)]
pub struct RootRow {
    pub timestamp: i64,
    pub entity: String,
}

/// The mathematical shape of a root-resolution row.
#[verifier::ext_equal]
pub struct RootRowView {
    pub timestamp: int,
    pub entity: Seq<char>,
}

impl View for RootRow {
    type V = RootRowView;

    open spec fn view(&self) -> RootRowView {
        RootRowView { timestamp: self.timestamp as int, entity: self.entity@ }
    }
}

/// Lexicographic order on character sequences, by code point; a proper
/// prefix comes first.
pub open spec fn lex_le(a: Seq<char>, b: Seq<char>) -> bool
    decreases a.len(),
{
    if a.len() == 0 {
        true
    } else if b.len() == 0 {
        false
    } else if (a[0] as u32) == (b[0] as u32) {
        lex_le(a.drop_first(), b.drop_first())
    } else {
        (a[0] as u32) < (b[0] as u32)
    }
}

/// The order root resolution minimizes: by timestamp, then by entity text.
pub open spec fn row_le(a: RootRowView, b: RootRowView) -> bool {
    a.timestamp < b.timestamp || (a.timestamp == b.timestamp && lex_le(a.entity, b.entity))
}

/// `lex_le` is reflexive.
pub proof fn lemma_lex_le_refl(a: Seq<char>)
    ensures
        lex_le(a, a),
    decreases a.len(),
{
    if a.len() > 0 {
        lemma_lex_le_refl(a.drop_first());
    }
}

/// `row_le` is reflexive.
pub proof fn lemma_row_le_refl(a: RootRowView)
    ensures
        row_le(a, a),
{
    lemma_lex_le_refl(a.entity);
}

/// `lex_le` is total: one of any two sequences comes first.
pub proof fn lemma_lex_le_total(a: Seq<char>, b: Seq<char>)
    ensures
        lex_le(a, b) || lex_le(b, a),
    decreases a.len(),
{
    if a.len() > 0 && b.len() > 0 && (a[0] as u32) == (b[0] as u32) {
        lemma_lex_le_total(a.drop_first(), b.drop_first());
    }
}

/// `lex_le` is transitive.
pub proof fn lemma_lex_le_trans(a: Seq<char>, b: Seq<char>, c: Seq<char>)
    requires
        lex_le(a, b),
        lex_le(b, c),
    ensures
        lex_le(a, c),
    decreases a.len(),
{
    if a.len() > 0 && b.len() > 0 && c.len() > 0 {
        if (a[0] as u32) == (b[0] as u32) && (b[0] as u32) == (c[0] as u32) {
            lemma_lex_le_trans(a.drop_first(), b.drop_first(), c.drop_first());
        }
    }
}

/// `row_le` is total.
pub proof fn lemma_row_le_total(a: RootRowView, b: RootRowView)
    ensures
        row_le(a, b) || row_le(b, a),
{
    lemma_lex_le_total(a.entity, b.entity);
}

/// `row_le` is transitive.
pub proof fn lemma_row_le_trans(a: RootRowView, b: RootRowView, c: RootRowView)
    requires
        row_le(a, b),
        row_le(b, c),
    ensures
        row_le(a, c),
{
    if a.timestamp == b.timestamp && b.timestamp == c.timestamp {
        lemma_lex_le_trans(a.entity, b.entity, c.entity);
    }
}

/// Decides `lex_le` on two character vectors.
#[verifier::loop_isolation(false)]
fn lex_le_exec(a: &Vec<char>, b: &Vec<char>) -> (r: bool)
    ensures
        r == lex_le(a@, b@),
{
    let mut k: usize = 0;
    proof {
        assert(a@.skip(0) =~= a@);
        assert(b@.skip(0) =~= b@);
    }
    loop
        invariant
            k <= a@.len(),
            k <= b@.len(),
            lex_le(a@, b@) == lex_le(a@.skip(k as int), b@.skip(k as int)),
        decreases a@.len() - k,
    {
        if k >= a.len() {
            proof {
                assert(a@.skip(k as int).len() == 0);
            }
            return true;
        }
        if k >= b.len() {
            proof {
                assert(b@.skip(k as int).len() == 0);
                assert(a@.skip(k as int).len() > 0);
            }
            return false;
        }
        let ca = a[k];
        let cb = b[k];
        proof {
            assert(a@.skip(k as int)[0] == a@[k as int]);
            assert(b@.skip(k as int)[0] == b@[k as int]);
        }
        if ca as u32 == cb as u32 {
            proof {
                assert(a@.skip(k as int).drop_first() =~= a@.skip(k + 1));
                assert(b@.skip(k as int).drop_first() =~= b@.skip(k + 1));
            }
            k = k + 1;
        } else {
            return (ca as u32) < (cb as u32);
        }
    }
}

/// Decides `row_le` on two rows.
fn row_le_exec(a: &RootRow, b: &RootRow) -> (r: bool)
    ensures
        r == row_le(a@, b@),
{
    if a.timestamp < b.timestamp {
        true
    } else if a.timestamp > b.timestamp {
        false
    } else {
        let ca = string_chars(a.entity.as_str());
        let cb = string_chars(b.entity.as_str());
        lex_le_exec(&ca, &cb)
    }
}

/// Picks the root entity out of the fact rows: the entity text of the
/// `row_le`-least row. Fails exactly when there are no rows.
#[verifier::loop_isolation(false)]
pub fn resolve_root(rows: &Vec<RootRow>) -> (r: Result<String, StoreError>)
    ensures
        rows@.len() == 0 <==> r == Err::<String, StoreError>(StoreError::NotFound),
        r matches Err(e) ==> e == StoreError::NotFound,
        r matches Ok(e) ==> exists|k: int|
            0 <= k < rows@.len() && (#[trigger] rows@[k])@.entity == e@ && forall|j: int|
                0 <= j < rows@.len() ==> row_le(rows@[k]@, #[trigger] rows@[j]@),
{
    if rows.len() == 0 {
        return Err(StoreError::NotFound);
    }
    let mut best: usize = 0;
    let mut k: usize = 1;
    proof {
        lemma_row_le_refl(rows@[0]@);
    }
    while k < rows.len()
        invariant
            0 <= best < k <= rows@.len(),
            forall|j: int| 0 <= j < k ==> row_le(rows@[best as int]@, #[trigger] rows@[j]@),
        decreases rows@.len() - k,
    {
        if !row_le_exec(&rows[best], &rows[k]) {
            proof {
                lemma_row_le_total(rows@[best as int]@, rows@[k as int]@);
                assert forall|j: int| 0 <= j < k + 1 implies row_le(
                    rows@[k as int]@,
                    #[trigger] rows@[j]@,
                ) by {
                    if j < k {
                        lemma_row_le_trans(rows@[k as int]@, rows@[best as int]@, rows@[j]@);
                    } else {
                        lemma_row_le_refl(rows@[k as int]@);
                    }
                }
            }
            best = k;
        }
        k = k + 1;
    }
    let e = rows[best].entity.clone();
    proof {
        let bi = best as int;
        assert(rows@[bi]@.entity == e@);
        assert(forall|j: int| 0 <= j < rows@.len() ==> row_le(rows@[bi]@, #[trigger] rows@[j]@));
    }
    Ok(e)
}

} // verus!
