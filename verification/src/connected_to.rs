//! Symmetric connection links between entities of the embedding shell.
//!
//! The shell tracks, per entity, the set of entities it considers itself
//! connected to. Links are meant to be mutual: the sweep below prunes every
//! link whose far side is gone or does not link back.

use vstd::prelude::*;

verus! {

/// One entity's links: the identities it considers itself connected to,
/// in insertion order.
#[derive(Debug, PartialEq, Eq)]
pub struct ConnectedTo(pub Vec<u64>);

impl View for ConnectedTo {
    type V = Seq<u64>;

    open spec fn view(&self) -> Seq<u64> {
        self.0@
    }
}

impl ConnectedTo {
    /// Whether `entity` is among these links.
    pub fn contains(&self, entity: u64) -> (found: bool)
        ensures
            found == self@.contains(entity),
    {
        let mut i: usize = 0;
        while i < self.0.len()
            invariant
                i <= self.0.len(),
                forall|j: int| 0 <= j < i ==> self.0@[j] != entity,
            decreases self.0.len() - i,
        {
            if self.0[i] == entity {
                return true;
            }
            i = i + 1;
        }
        false
    }
}

/// The model of a whole connection table: each entity with its links.
pub open spec fn table_view(rows: Seq<(u64, ConnectedTo)>) -> Seq<(u64, Seq<u64>)> {
    rows.map_values(|row: (u64, ConnectedTo)| (row.0, row.1@))
}

/// The links of the first row of `table` naming `entity`, if any.
pub open spec fn lookup(table: Seq<(u64, Seq<u64>)>, entity: u64) -> Option<Seq<u64>>
    decreases table.len(),
{
    if table.len() == 0 {
        None
    } else if table.first().0 == entity {
        Some(table.first().1)
    } else {
        lookup(table.drop_first(), entity)
    }
}

/// Whether `keeper` may keep its link to `other`: `other` has a row in the
/// table and links back to `keeper`.
pub open spec fn kept(table: Seq<(u64, Seq<u64>)>, keeper: u64, other: u64) -> bool {
    lookup(table, other) matches Some(links) && links.contains(keeper)
}

/// `keeper`'s links after the sweep: those whose far side links back, in
/// their original order.
pub open spec fn swept_links(table: Seq<(u64, Seq<u64>)>, keeper: u64, links: Seq<u64>) -> Seq<
    u64,
>
    decreases links.len(),
{
    if links.len() == 0 {
        Seq::empty()
    } else {
        let rest = swept_links(table, keeper, links.drop_last());
        if kept(table, keeper, links.last()) {
            rest.push(links.last())
        } else {
            rest
        }
    }
}

/// The whole table after the sweep: every row keeps its entity and its
/// reciprocated links.
pub open spec fn swept(table: Seq<(u64, Seq<u64>)>) -> Seq<(u64, Seq<u64>)> {
    table.map_values(|row: (u64, Seq<u64>)| (row.0, swept_links(table, row.0, row.1)))
}

/// When the first `k` rows of `table` do not name `entity`, the lookup is
/// decided by the rows from `k` on.
proof fn lemma_lookup_skip(table: Seq<(u64, Seq<u64>)>, entity: u64, k: int)
    requires
        0 <= k <= table.len(),
        forall|j: int| 0 <= j < k ==> (#[trigger] table[j]).0 != entity,
    ensures
        lookup(table, entity) == lookup(table.skip(k), entity),
    decreases k,
{
    if k > 0 {
        assert(table.first().0 != entity);
        lemma_lookup_skip(table.drop_first(), entity, k - 1);
        assert(table.drop_first().skip(k - 1) =~= table.skip(k));
    } else {
        assert(table.skip(0) =~= table);
    }
}

/// The row of `table` naming `entity`, if any: the exec face of `lookup`.
fn find_row<'a>(table: &'a Vec<(u64, ConnectedTo)>, entity: u64) -> (row: Option<&'a ConnectedTo>)
    ensures
        row is Some <==> lookup(table_view(table@), entity) is Some,
        row matches Some(links) ==> lookup(table_view(table@), entity) == Some(links@),
{
    let ghost tv = table_view(table@);
    let mut i: usize = 0;
    while i < table.len()
        invariant
            i <= table.len(),
            tv == table_view(table@),
            tv.len() == table@.len(),
            forall|j: int| 0 <= j < i ==> (#[trigger] tv[j]).0 != entity,
        decreases table.len() - i,
    {
        if table[i].0 == entity {
            proof {
                lemma_lookup_skip(tv, entity, i as int);
                assert(tv.skip(i as int).first() == tv[i as int]);
            }
            return Some(&table[i].1);
        }
        i = i + 1;
    }
    proof {
        lemma_lookup_skip(tv, entity, table@.len() as int);
        assert(tv.skip(tv.len() as int).len() == 0);
    }
    None
}

/// Removes every one-sided link: in the returned table each entity keeps,
/// in order, exactly the links whose far side has a row and links back.
/// Rows themselves are kept, in order, whatever becomes of their links.
pub fn remove_disjoint(table: &Vec<(u64, ConnectedTo)>) -> (result: Vec<(u64, ConnectedTo)>)
    ensures
        table_view(result@) == swept(table_view(table@)),
{
    let ghost tv = table_view(table@);
    let mut result: Vec<(u64, ConnectedTo)> = Vec::new();
    let mut i: usize = 0;
    while i < table.len()
        invariant
            i <= table.len(),
            tv == table_view(table@),
            tv.len() == table@.len(),
            result@.len() == i,
            forall|p: int|
                0 <= p < i ==> #[trigger] table_view(result@)[p] == (
                tv[p].0,
                swept_links(tv, tv[p].0, tv[p].1),
            ),
        decreases table.len() - i,
    {
        let keeper = table[i].0;
        let links = &table[i].1;
        let mut surviving: Vec<u64> = Vec::new();
        let mut j: usize = 0;
        while j < links.0.len()
            invariant
                j <= links.0.len(),
                tv == table_view(table@),
                links@ == tv[i as int].1,
                i < table@.len(),
                keeper == tv[i as int].0,
                surviving@ == swept_links(tv, keeper, links@.take(j as int)),
            decreases links.0.len() - j,
        {
            let other = links.0[j];
            let links_back = match find_row(table, other) {
                Some(other_links) => other_links.contains(keeper),
                None => false,
            };
            if links_back {
                surviving.push(other);
            }
            proof {
                let extended = links@.take(j + 1);
                assert(extended.drop_last() =~= links@.take(j as int));
                assert(extended.last() == links@[j as int]);
                assert(surviving@ =~= swept_links(tv, keeper, extended));
            }
            j = j + 1;
        }
        proof {
            assert(links@.take(links@.len() as int) =~= links@);
        }
        let ghost partial = result@;
        result.push((keeper, ConnectedTo(surviving)));
        proof {
            assert forall|p: int| 0 <= p < i + 1 implies #[trigger] table_view(result@)[p] == (
                tv[p].0,
                swept_links(tv, tv[p].0, tv[p].1),
            ) by {
                if p < i {
                    assert(result@[p] == partial[p]);
                    assert(table_view(result@)[p] == table_view(partial)[p]);
                } else {
                    assert(result@[p] == (keeper, ConnectedTo(surviving)));
                }
            }
        }
        i = i + 1;
    }
    proof {
        assert(table_view(result@) =~= swept(tv));
    }
    result
}

} // verus!
