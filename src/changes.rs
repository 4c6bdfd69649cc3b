use vstd::prelude::*;

use prost::Message;
use substreams_database_change::pb::database::{table_change, DatabaseChanges};

use crate::table_info::{lookup, pairs_view};

verus! {

/// One column assignment of a table change.
#[derive(Debug)]
pub struct Field {
    pub name: String,
    pub old_value: String,
    pub new_value: String,
}

/// The primary key of a table change.
#[derive(Debug)]
pub enum PrimaryKey {
    /// A single key, which the loader does not use.
    Pk(String),
    /// Extra columns, by name, that complete the row.
    CompositePk(Vec<(String, String)>),
}

/// A set of column assignments destined for one row of one table.
#[derive(Debug)]
pub struct TableChange {
    pub table: String,
    pub fields: Vec<Field>,
    pub primary_key: Option<PrimaryKey>,
}

/// What the loader reads of a table change: its table, the new value of
/// each field by name, and the extra columns of a composite primary key.
pub type ChangeView = (Seq<char>, Seq<(Seq<char>, Seq<char>)>, Map<Seq<char>, Seq<char>>);

/// The pairs of a list as a map; where a name comes twice, the later value counts.
pub open spec fn pairs_map(p: Seq<(Seq<char>, Seq<char>)>) -> Map<Seq<char>, Seq<char>> {
    Map::new(|k: Seq<char>| lookup(p, k) is Some, |k: Seq<char>| lookup(p, k).unwrap())
}

pub open spec fn fields_view(f: Seq<Field>) -> Seq<(Seq<char>, Seq<char>)> {
    f.map_values(|x: Field| (x.name@, x.new_value@))
}

impl View for TableChange {
    type V = ChangeView;

    open spec fn view(&self) -> ChangeView {
        (
            self.table@,
            fields_view(self.fields@),
            match self.primary_key {
                Some(PrimaryKey::CompositePk(k)) => pairs_map(pairs_view(k@)),
                _ => Map::empty(),
            },
        )
    }
}

pub open spec fn changes_view(s: Seq<TableChange>) -> Seq<ChangeView> {
    s.map_values(|c: TableChange| c@)
}

/// The table changes that an encoded `DatabaseChanges` message holds, in
/// order; `None` when the bytes are not such a message.
pub uninterp spec fn decoded_changes(bytes: Seq<u8>) -> Option<Seq<ChangeView>>;

/// Relies on prost's `Message::decode` for substreams-database-change's
/// `DatabaseChanges`: it decodes the bytes or fails, and the keys of a
/// composite primary key come from a map, so no name repeats among them.
#[verifier::external_body]
pub(crate) fn decode_changes(bytes: &[u8]) -> (r: Option<Vec<TableChange>>)
    ensures
        match decoded_changes(bytes@) {
            Some(s) => r matches Some(v) && changes_view(v@) == s,
            None => r is None,
        },
{
    let decoded = DatabaseChanges::decode(bytes).ok()?;
    Some(decoded.table_changes.into_iter().map(|c| TableChange {
        table: c.table,
        fields: c.fields.into_iter().map(|f| Field { name: f.name, old_value: f.old_value, new_value: f.new_value }).collect(),
        primary_key: c.primary_key.map(|k| match k {
            table_change::PrimaryKey::Pk(p) => PrimaryKey::Pk(p),
            table_change::PrimaryKey::CompositePk(p) => PrimaryKey::CompositePk(p.keys.into_iter().collect()),
        }),
    }).collect())
}

/// The value of column `key` in the row that a change makes: the extra
/// columns of a composite key win over fields of the same name.
pub open spec fn row_value(c: ChangeView, key: Seq<char>) -> Option<Seq<char>> {
    if c.2.contains_key(key) {
        Some(c.2[key])
    } else {
        lookup(c.1, key)
    }
}

proof fn lemma_lookup_append(
    a: Seq<(Seq<char>, Seq<char>)>,
    b: Seq<(Seq<char>, Seq<char>)>,
    key: Seq<char>,
)
    ensures
        lookup(a + b, key) == if lookup(b, key) is Some {
            lookup(b, key)
        } else {
            lookup(a, key)
        },
    decreases b.len(),
{
    if b.len() == 0 {
        assert(a + b =~= a);
    } else {
        assert((a + b).drop_last() =~= a + b.drop_last());
        assert((a + b).last() == b.last());
        lemma_lookup_append(a, b.drop_last(), key);
    }
}

/// The new value of each field, by name, in the order of the fields.
pub fn convert_field_to_hash(fields: &Vec<Field>) -> (r: Vec<(String, String)>)
    ensures
        pairs_view(r@) == fields_view(fields@),
{
    let mut r: Vec<(String, String)> = Vec::new();
    let mut i: usize = 0;
    while i < fields.len()
        invariant
            i <= fields@.len(),
            pairs_view(r@) =~= fields_view(fields@.take(i as int)),
        decreases fields@.len() - i,
    {
        let f = &fields[i];
        let ghost old_r = r@;
        r.push((f.name.clone(), f.new_value.clone()));
        assert(pairs_view(r@) =~= pairs_view(old_r).push((f.name@, f.new_value@)));
        assert(fields@.take(i + 1) =~= fields@.take(i as int).push(fields@[i as int]));
        assert(fields_view(fields@.take(i + 1)) =~= fields_view(fields@.take(i as int)).push(
            (f.name@, f.new_value@),
        ));
        i = i + 1;
    }
    assert(fields@.take(i as int) =~= fields@);
    r
}

/// The values of the row that a change makes, by column name: its fields,
/// then the extra columns of a composite primary key.
pub fn row_values(change: &TableChange) -> (r: Vec<(String, String)>)
    ensures
        forall|k: Seq<char>| #[trigger] lookup(pairs_view(r@), k) == row_value(change@, k),
{
    let mut r = convert_field_to_hash(&change.fields);
    let ghost fields = pairs_view(r@);
    let mut extra: Vec<(String, String)> = Vec::new();
    match &change.primary_key {
        Some(PrimaryKey::CompositePk(keys)) => {
            let mut i: usize = 0;
            while i < keys.len()
                invariant
                    i <= keys@.len(),
                    pairs_view(extra@) =~= pairs_view(keys@.take(i as int)),
                decreases keys@.len() - i,
            {
                let ghost old_extra = extra@;
                extra.push((keys[i].0.clone(), keys[i].1.clone()));
                assert(pairs_view(extra@) =~= pairs_view(old_extra).push(
                    (keys@[i as int].0@, keys@[i as int].1@),
                ));
                assert(keys@.take(i + 1) =~= keys@.take(i as int).push(keys@[i as int]));
                assert(pairs_view(keys@.take(i + 1)) =~= pairs_view(keys@.take(i as int)).push(
                    (keys@[i as int].0@, keys@[i as int].1@),
                ));
                i = i + 1;
            }
            assert(keys@.take(i as int) =~= keys@);
        },
        _ => {},
    }
    let ghost tail = pairs_view(extra@);
    r.append(&mut extra);
    proof {
        assert(pairs_view(r@) =~= fields + tail);
        assert forall|k: Seq<char>| #[trigger] lookup(pairs_view(r@), k) == row_value(change@, k) by {
            lemma_lookup_append(fields, tail, k);
        }
    }
    r
}

/// Table names of `s` in the order of their first appearance.
pub open spec fn table_order(s: Seq<ChangeView>) -> Seq<Seq<char>>
    decreases s.len(),
{
    if s.len() == 0 {
        Seq::empty()
    } else {
        let o = table_order(s.drop_last());
        if o.contains(s.last().0) {
            o
        } else {
            o.push(s.last().0)
        }
    }
}

/// The changes of `s` for table `t`, in order.
pub open spec fn changes_for(s: Seq<ChangeView>, t: Seq<char>) -> Seq<ChangeView>
    decreases s.len(),
{
    if s.len() == 0 {
        Seq::empty()
    } else {
        let r = changes_for(s.drop_last(), t);
        if s.last().0 == t {
            r.push(s.last())
        } else {
            r
        }
    }
}

proof fn lemma_table_order_unique(s: Seq<ChangeView>)
    ensures
        table_order(s).no_duplicates(),
        forall|t: Seq<char>| !table_order(s).contains(t) ==> changes_for(s, t).len() == 0,
    decreases s.len(),
{
    if s.len() > 0 {
        lemma_table_order_unique(s.drop_last());
        let o = table_order(s.drop_last());
        if !o.contains(s.last().0) {
            assert forall|i: int, j: int|
                0 <= i < j < o.push(s.last().0).len() implies o.push(s.last().0)[i] != o.push(
                s.last().0,
            )[j] by {
                if j == o.len() {
                    assert(o.push(s.last().0)[i] == o[i]);
                }
            }
        }
        assert forall|t: Seq<char>| !table_order(s).contains(t) implies changes_for(s, t).len()
            == 0 by {
            if o.contains(t) {
                let k = choose|k: int| 0 <= k < o.len() && o[k] == t;
                if !o.contains(s.last().0) {
                    assert(o.push(s.last().0)[k] == t);
                }
            }
            if s.last().0 == t {
                assert(o.push(s.last().0)[o.len() as int] == t);
            }
        }
    }
}

/// The changes of one table, in order.
pub struct TableGroup {
    pub table: String,
    pub changes: Vec<TableChange>,
}

pub open spec fn groups_view(g: Seq<TableGroup>) -> Seq<(Seq<char>, Seq<ChangeView>)> {
    g.map_values(|x: TableGroup| (x.table@, changes_view(x.changes@)))
}

/// The groups of `s` by table, tables in the order of first appearance.
pub open spec fn grouped(s: Seq<ChangeView>) -> Seq<(Seq<char>, Seq<ChangeView>)> {
    table_order(s).map_values(|t: Seq<char>| (t, changes_for(s, t)))
}

/// Groups changes by table: tables in the order in which they first
/// appear, and each table's changes in their order.
pub fn split_table_changes(table_changes: Vec<TableChange>) -> (r: Vec<TableGroup>)
    ensures
        groups_view(r@) == grouped(changes_view(table_changes@)),
{
    let ghost all = changes_view(table_changes@);
    let mut rest = table_changes;
    let mut groups: Vec<TableGroup> = Vec::new();
    let ghost mut done: int = 0;
    assert(all.take(0) =~= Seq::<ChangeView>::empty());
    assert(groups_view(groups@) =~= grouped(all.take(0)));
    while rest.len() > 0
        invariant
            0 <= done <= all.len(),
            changes_view(rest@) =~= all.skip(done),
            groups_view(groups@) =~= grouped(all.take(done)),
        decreases rest@.len(),
    {
        let ghost before = all.take(done);
        let ghost old_rest = rest@;
        assert(changes_view(old_rest)[0] == old_rest[0]@);
        assert(changes_view(old_rest).len() == old_rest.len());
        assert(done < all.len());
        let change = rest.remove(0);
        let ghost c = change@;
        assert(all.skip(done)[0] == all[done]);
        assert(c == all[done]);
        assert(changes_view(rest@) =~= changes_view(old_rest).skip(1));
        assert(all.skip(done).skip(1) =~= all.skip(done + 1));
        let ghost now = before.push(c);
        assert(all.take(done + 1) =~= now);
        let ghost o = table_order(before);
        let ghost old_groups = groups@;
        proof {
            lemma_table_order_unique(before);
            assert(now.drop_last() =~= before);
            assert(groups_view(old_groups).len() == old_groups.len());
            assert(grouped(before).len() == o.len());
        }
        let mut g: usize = 0;
        while g < groups.len() && !(groups[g].table == change.table)
            invariant
                g <= groups@.len(),
                groups@ == old_groups,
                c == change@,
                forall|j: int| 0 <= j < g ==> groups@[j].table@ != c.0,
            decreases groups@.len() - g,
        {
            g = g + 1;
        }
        proof {
            assert forall|j: int| 0 <= j < o.len() implies old_groups[j].table@ == o[j] by {
                assert(groups_view(old_groups)[j] == grouped(before)[j]);
            }
        }
        if g < groups.len() {
            let mut group = groups.remove(g);
            let ghost old_changes = group.changes@;
            group.changes.push(change);
            groups.insert(g, group);
            proof {
                assert(o[g as int] == c.0);
                assert(o.contains(c.0));
                assert(table_order(now) == o);
                assert(changes_view(old_changes) == changes_for(before, c.0)) by {
                    assert(groups_view(old_groups)[g as int] == grouped(before)[g as int]);
                }
                assert forall|j: int| 0 <= j < o.len() implies groups_view(groups@)[j]
                    == grouped(now)[j] by {
                    assert(grouped(now)[j] == (o[j], changes_for(now, o[j])));
                    if j != g {
                        assert(o[j] != o[g as int]);
                        assert(groups@[j] == old_groups[j]);
                        assert(groups_view(old_groups)[j] == grouped(before)[j]);
                    } else {
                        assert(changes_view(groups@[j].changes@) =~= changes_view(old_changes).push(
                            c,
                        ));
                    }
                }
                assert(groups_view(groups@) =~= grouped(now));
            }
        } else {
            let table = change.table.clone();
            let mut first: Vec<TableChange> = Vec::new();
            first.push(change);
            groups.push(TableGroup { table, changes: first });
            proof {
                assert(!o.contains(c.0)) by {
                    if o.contains(c.0) {
                        let k = choose|k: int| 0 <= k < o.len() && o[k] == c.0;
                        assert(old_groups[k].table@ == o[k]);
                    }
                }
                assert(table_order(now) == o.push(c.0));
                assert(changes_for(before, c.0).len() == 0);
                assert forall|j: int| 0 <= j < o.len() + 1 implies groups_view(groups@)[j]
                    == grouped(now)[j] by {
                    assert(grouped(now)[j] == (o.push(c.0)[j], changes_for(now, o.push(c.0)[j])));
                    if j < o.len() {
                        assert(o[j] != c.0);
                        assert(groups@[j] == old_groups[j]);
                        assert(groups_view(old_groups)[j] == grouped(before)[j]);
                    } else {
                        assert(changes_for(before, c.0) =~= Seq::<ChangeView>::empty());
                        assert(changes_view(groups@[j].changes@) =~= seq![c]);
                    }
                }
                assert(groups_view(groups@) =~= grouped(now));
            }
        }
        proof {
            done = done + 1;
        }
    }
    assert(all.take(done) =~= all);
    groups
}

} // verus!
