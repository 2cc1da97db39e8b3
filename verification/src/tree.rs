use vstd::prelude::*;

use core::cmp::Ordering;

use crate::GitError;
use crate::bytes::{copy_range, find_byte, find_first, lemma_find_first, lemma_find_first_is};
use crate::hashing::sha1_of;
use crate::kind::Kind;
use crate::object::{Object, ObjectView, WrittenObject, object_bytes, written_for};
use crate::tree_entry::{
    TreeEntry, TreeEntryMode, TreeEntryView, entry_cmp, entry_fs, entry_parseable,
    lemma_entry_cmp_flip, lemma_entry_cmp_trans, lemma_mode_token_digits,
    lemma_mode_token_inverse, mode_of_token, mode_token,
};

verus! {

/// The name of the store's control directory (`.git`), which a tree walk
/// must never include in the tree it builds.
pub open spec fn control_dir_name() -> Seq<u8> {
    seq![46u8, 103u8, 105u8, 116u8]
}

/// Whether a directory child is the control directory itself and must be
/// skipped when building a tree.
pub fn is_control_dir(name: &Vec<u8>) -> (r: bool)
    ensures
        r <==> name@ == control_dir_name(),
{
    let dot_git: Vec<u8> = vec![46u8, 103u8, 105u8, 116u8];
    proof {
        assert(dot_git@ =~= control_dir_name());
    }
    crate::bytes::bytes_eq(name, &dot_git)
}

/// The views of a sequence of entries.
pub open spec fn views_of(s: Seq<TreeEntry>) -> Seq<TreeEntryView> {
    s.map_values(|e: TreeEntry| e@)
}

/// The serialized form of one entry: octal mode token, space, raw name bytes,
/// NUL, then the 20 raw hash bytes.
pub open spec fn entry_bytes(e: TreeEntryView) -> Seq<u8> {
    mode_token(e.mode) + seq![32u8] + e.name + seq![0u8] + e.hash
}

/// A tree payload: the concatenation of its entries' serialized forms, with
/// no separators between entries.
pub open spec fn spec_tree_payload(es: Seq<TreeEntryView>) -> Seq<u8>
    decreases es.len(),
{
    if es.len() == 0 {
        Seq::empty()
    } else {
        entry_bytes(es[0]) + spec_tree_payload(es.drop_first())
    }
}

proof fn lemma_tree_payload_push(es: Seq<TreeEntryView>, e: TreeEntryView)
    ensures
        spec_tree_payload(es.push(e)) == spec_tree_payload(es) + entry_bytes(e),
    decreases es.len(),
{
    reveal_with_fuel(spec_tree_payload, 3);
    if es.len() == 0 {
        assert(es.push(e)[0] == e);
        assert(es.push(e).drop_first() =~= Seq::<TreeEntryView>::empty());
        assert(spec_tree_payload(es.push(e)) =~= spec_tree_payload(es) + entry_bytes(e));
    } else {
        lemma_tree_payload_push(es.drop_first(), e);
        assert(es.push(e).drop_first() =~= es.drop_first().push(e));
        assert(es.push(e)[0] == es[0]);
        assert(spec_tree_payload(es.push(e)) =~= spec_tree_payload(es) + entry_bytes(e));
    }
}

/// Serialize entries in their given order into tree payload bytes.
pub fn tree_payload(entries: &Vec<TreeEntry>) -> (r: Vec<u8>)
    ensures
        r@ == spec_tree_payload(views_of(entries@)),
{
    let ghost es = views_of(entries@);
    let mut buf: Vec<u8> = Vec::new();
    proof {
        assert(es.take(0) =~= Seq::<TreeEntryView>::empty());
    }
    let mut i: usize = 0;
    while i < entries.len()
        invariant
            0 <= i <= entries@.len(),
            es == views_of(entries@),
            buf@ == spec_tree_payload(es.take(i as int)),
        decreases entries@.len() - i,
    {
        let entry = &entries[i];
        let mut tok = entry.mode.octal();
        buf.append(&mut tok);
        buf.push(32);
        buf.extend_from_slice(entry.name.as_slice());
        buf.push(0);
        buf.extend_from_slice(entry.hash.as_slice());
        proof {
            lemma_tree_payload_push(es.take(i as int), es[i as int]);
            assert(es.take(i as int).push(es[i as int]) =~= es.take(i as int + 1));
            assert(buf@ =~= spec_tree_payload(es.take(i as int)) + entry_bytes(es[i as int]));
        }
        i = i + 1;
    }
    proof {
        assert(es.take(es.len() as int) =~= es);
    }
    buf
}

/// Insert an entry into a sorted run the way an ordered set does: before the
/// first strictly greater entry, or nowhere when an entry comparing `Equal`
/// already stands there (the earlier entry is kept).
pub open spec fn spec_insert_entry(s: Seq<TreeEntryView>, e: TreeEntryView) -> Seq<TreeEntryView>
    decreases s.len(),
{
    if s.len() == 0 {
        seq![e]
    } else {
        match entry_cmp(e, s[0]) {
            Ordering::Less => seq![e] + s,
            Ordering::Equal => s,
            Ordering::Greater => seq![s[0]] + spec_insert_entry(s.drop_first(), e),
        }
    }
}

/// The canonical arrangement of a directory's entries: each inserted in turn
/// into a sorted run, duplicates by the ordering rule dropped.
pub open spec fn spec_sort_entries(s: Seq<TreeEntryView>) -> Seq<TreeEntryView>
    decreases s.len(),
{
    if s.len() == 0 {
        Seq::empty()
    } else {
        spec_insert_entry(spec_sort_entries(s.drop_last()), s.last())
    }
}

#[verifier::loop_isolation(false)]
fn insert_entry(out: &mut Vec<TreeEntry>, e: TreeEntry)
    ensures
        views_of(final(out)@) == spec_insert_entry(views_of(old(out)@), e@),
{
    let ghost s = views_of(out@);
    let ghost ev = e@;
    let mut i: usize = 0;
    proof {
        assert(s.skip(0) =~= s);
        assert(s.take(0) + spec_insert_entry(s.skip(0), ev) =~= spec_insert_entry(s, ev));
    }
    while i < out.len()
        invariant
            0 <= i <= out@.len(),
            s == views_of(out@),
            ev == e@,
            spec_insert_entry(s, ev) == s.take(i as int) + spec_insert_entry(
                s.skip(i as int),
                ev,
            ),
        decreases out@.len() - i,
    {
        proof {
            assert(s.skip(i as int)[0] == s[i as int]);
        }
        let c = e.cmp(&out[i]);
        if matches!(c, Ordering::Less) {
            out.insert(i, e);
            proof {
                assert(views_of(out@) =~= s.take(i as int) + (seq![ev] + s.skip(i as int)));
            }
            return;
        }
        if matches!(c, Ordering::Equal) {
            proof {
                assert(s.take(i as int) + s.skip(i as int) =~= s);
            }
            return;
        }
        proof {
            assert(s.skip(i as int).drop_first() =~= s.skip(i as int + 1));
            assert(s.take(i as int + 1) =~= s.take(i as int) + seq![s[i as int]]);
            assert(s.take(i as int) + spec_insert_entry(s.skip(i as int), ev) =~= s.take(
                i as int + 1,
            ) + spec_insert_entry(s.skip(i as int + 1), ev));
        }
        i = i + 1;
    }
    out.push(e);
    proof {
        assert(s.skip(s.len() as int) =~= Seq::<TreeEntryView>::empty());
        assert(s.take(s.len() as int) =~= s);
        assert(views_of(out@) =~= s + seq![ev]);
        assert(s + spec_insert_entry(Seq::<TreeEntryView>::empty(), ev) =~= s + seq![ev]);
    }
}

/// Arrange a directory's entries in canonical order, dropping an entry that
/// compares `Equal` to one already inserted.
pub fn sort_entries(entries: Vec<TreeEntry>) -> (r: Vec<TreeEntry>)
    ensures
        views_of(r@) == spec_sort_entries(views_of(entries@)),
{
    let ghost all = views_of(entries@);
    let mut rest = entries;
    let mut out: Vec<TreeEntry> = Vec::new();
    proof {
        assert(all.take(0) =~= Seq::<TreeEntryView>::empty());
        assert(views_of(out@) =~= Seq::<TreeEntryView>::empty());
        assert(views_of(rest@) =~= all.skip(0));
    }
    while rest.len() > 0
        invariant
            rest@.len() <= all.len(),
            views_of(out@) == spec_sort_entries(all.take(all.len() - rest@.len())),
            views_of(rest@) == all.skip(all.len() - rest@.len()),
        decreases rest@.len(),
    {
        let ghost k = all.len() - rest@.len();
        let e = rest.remove(0);
        insert_entry(&mut out, e);
        proof {
            assert(e@ == all.skip(k as int)[0]);
            assert(e@ == all[k as int]);
            assert(views_of(rest@) =~= all.skip(k as int).drop_first());
            assert(all.skip(k as int).drop_first() =~= all.skip(k as int + 1));
            let t = all.take(k as int + 1);
            assert(t.drop_last() =~= all.take(k as int));
            assert(t.last() == all[k as int]);
        }
    }
    proof {
        assert(all.take(all.len() as int) =~= all);
    }
    out
}

/// The tree object that a directory's entries build: the entries in canonical
/// order, serialized as the payload of a Tree-kind object.
pub open spec fn tree_object_for(entries: Seq<TreeEntryView>) -> ObjectView {
    ObjectView { kind: Kind::Tree, payload: spec_tree_payload(spec_sort_entries(entries)) }
}

/// Build a tree object from a directory's entries: sort them in canonical
/// order, serialize them, and seal the result.
pub fn write_tree(entries: Vec<TreeEntry>) -> (r: WrittenObject)
    ensures
        written_for(r, tree_object_for(views_of(entries@))),
{
    let ghost es = views_of(entries@);
    let sorted = sort_entries(entries);
    let payload = tree_payload(&sorted);
    let obj = Object { kind: Kind::Tree, payload };
    proof {
        assert(obj@ =~= tree_object_for(es));
    }
    obj.write()
}

/// Every pair of entries stands in strictly ascending canonical order.
pub open spec fn entries_sorted(s: Seq<TreeEntryView>) -> bool {
    forall|i: int, j: int|
        0 <= i < j < s.len() ==> entry_cmp(#[trigger] s[i], #[trigger] s[j]) == Ordering::Less
}

/// Every entry could come from a real directory listing.
pub open spec fn entries_fs(s: Seq<TreeEntryView>) -> bool {
    forall|i: int| 0 <= i < s.len() ==> entry_fs(#[trigger] s[i])
}

proof fn lemma_insert_entry_props(s: Seq<TreeEntryView>, e: TreeEntryView)
    requires
        entries_fs(s),
        entry_fs(e),
        entries_sorted(s),
    ensures
        entries_sorted(spec_insert_entry(s, e)),
        forall|k: int|
            0 <= k < spec_insert_entry(s, e).len() ==> spec_insert_entry(s, e)[k] == e
                || s.contains(#[trigger] spec_insert_entry(s, e)[k]),
    decreases s.len(),
{
    let r = spec_insert_entry(s, e);
    if s.len() == 0 {
        assert(r[0] == e);
    } else {
        match entry_cmp(e, s[0]) {
            Ordering::Less => {
                assert forall|i: int, j: int| 0 <= i < j < r.len() implies entry_cmp(
                    r[i],
                    r[j],
                ) == Ordering::Less by {
                    if i == 0 {
                        assert(r[j] == s[j - 1]);
                        if j - 1 > 0 {
                            assert(entry_cmp(s[0], s[j - 1]) == Ordering::Less);
                            lemma_entry_cmp_trans(e, s[0], s[j - 1]);
                        }
                    } else {
                        assert(r[i] == s[i - 1]);
                        assert(r[j] == s[j - 1]);
                    }
                }
                assert forall|k: int| 0 <= k < r.len() implies r[k] == e || s.contains(
                    #[trigger] r[k],
                ) by {
                    if k > 0 {
                        assert(r[k] == s[k - 1]);
                    }
                }
            },
            Ordering::Equal => {
                assert forall|k: int| 0 <= k < r.len() implies r[k] == e || s.contains(
                    #[trigger] r[k],
                ) by {
                    assert(r[k] == s[k]);
                }
            },
            Ordering::Greater => {
                let s1 = s.drop_first();
                assert(entries_fs(s1)) by {
                    assert forall|i: int| 0 <= i < s1.len() implies entry_fs(#[trigger] s1[i]) by {
                        assert(s1[i] == s[i + 1]);
                    }
                }
                assert(entries_sorted(s1)) by {
                    assert forall|i: int, j: int| 0 <= i < j < s1.len() implies entry_cmp(
                        #[trigger] s1[i],
                        #[trigger] s1[j],
                    ) == Ordering::Less by {
                        assert(s1[i] == s[i + 1]);
                        assert(s1[j] == s[j + 1]);
                    }
                }
                lemma_insert_entry_props(s1, e);
                let r1 = spec_insert_entry(s1, e);
                assert(r == seq![s[0]] + r1);
                assert forall|i: int, j: int| 0 <= i < j < r.len() implies entry_cmp(
                    r[i],
                    r[j],
                ) == Ordering::Less by {
                    if i == 0 {
                        let x = r1[j - 1];
                        assert(r[j] == x);
                        assert(x == e || s1.contains(x));
                        if x == e {
                            lemma_entry_cmp_flip(e, s[0]);
                        } else {
                            let k = choose|k: int| 0 <= k < s1.len() && s1[k] == x;
                            assert(s1[k] == s[k + 1]);
                            assert(entry_cmp(s[0], s[k + 1]) == Ordering::Less);
                        }
                    } else {
                        assert(r[i] == r1[i - 1]);
                        assert(r[j] == r1[j - 1]);
                    }
                }
                assert forall|k: int| 0 <= k < r.len() implies r[k] == e || s.contains(
                    #[trigger] r[k],
                ) by {
                    if k == 0 {
                        assert(r[0] == s[0]);
                        assert(s.contains(s[0]));
                    } else {
                        let x = r1[k - 1];
                        assert(r[k] == x);
                        assert(x == e || s1.contains(x));
                        if x != e {
                            let k2 = choose|k2: int| 0 <= k2 < s1.len() && s1[k2] == x;
                            assert(s1[k2] == s[k2 + 1]);
                            assert(s.contains(s[k2 + 1]));
                        }
                    }
                }
            },
        }
    }
}

proof fn lemma_sort_entries_props(s: Seq<TreeEntryView>)
    requires
        entries_fs(s),
    ensures
        entries_sorted(spec_sort_entries(s)),
        forall|k: int|
            0 <= k < spec_sort_entries(s).len() ==> s.contains(#[trigger] spec_sort_entries(s)[k]),
    decreases s.len(),
{
    if s.len() > 0 {
        let s0 = s.drop_last();
        assert(entries_fs(s0)) by {
            assert forall|i: int| 0 <= i < s0.len() implies entry_fs(#[trigger] s0[i]) by {
                assert(s0[i] == s[i]);
            }
        }
        lemma_sort_entries_props(s0);
        let t = spec_sort_entries(s0);
        assert(entries_fs(t)) by {
            assert forall|i: int| 0 <= i < t.len() implies entry_fs(#[trigger] t[i]) by {
                assert(s0.contains(t[i]));
                let k = choose|k: int| 0 <= k < s0.len() && s0[k] == t[i];
                assert(s0[k] == s[k]);
            }
        }
        assert(entry_fs(s.last()));
        lemma_insert_entry_props(t, s.last());
        let r = spec_sort_entries(s);
        assert(r == spec_insert_entry(t, s.last()));
        assert forall|k: int| 0 <= k < r.len() implies s.contains(#[trigger] r[k]) by {
            if r[k] == s.last() {
                assert(s[s.len() - 1] == s.last());
                assert(s.contains(s[s.len() - 1]));
            } else {
                assert(t.contains(r[k]));
                let k2 = choose|k2: int| 0 <= k2 < t.len() && t[k2] == r[k];
                assert(s0.contains(t[k2]));
                let k3 = choose|k3: int| 0 <= k3 < s0.len() && s0[k3] == t[k2];
                assert(s0[k3] == s[k3]);
                assert(s.contains(s[k3]));
            }
        }
    }
}

/// The outcome of parsing one entry at the front of a payload suffix.
pub enum EntryStep {
    /// The suffix is empty: iteration is complete.
    Finished,
    /// One entry, and the number of bytes its serialized form occupies.
    Item(TreeEntryView, nat),
    /// No well-formed entry stands at the front of the suffix.
    Malformed(GitError),
}

/// Parse one entry at the front of `s`: the mode token up to the first space
/// (`UnknownMode` when unrecognized), the name up to the first NUL, then 20
/// hash bytes; a missing space, NUL or hash byte is a truncated payload
/// (`Corrupt`).
pub open spec fn spec_parse_entry(s: Seq<u8>) -> EntryStep {
    if s.len() == 0 {
        EntryStep::Finished
    } else {
        match find_first(s, 32) {
            None => EntryStep::Malformed(GitError::Corrupt),
            Some(sp) => match mode_of_token(s.take(sp as int)) {
                None => EntryStep::Malformed(GitError::UnknownMode),
                Some(mode) => {
                    let rest = s.skip(sp as int + 1);
                    match find_first(rest, 0) {
                        None => EntryStep::Malformed(GitError::Corrupt),
                        Some(nl) => {
                            let after = rest.skip(nl as int + 1);
                            if after.len() < 20 {
                                EntryStep::Malformed(GitError::Corrupt)
                            } else {
                                EntryStep::Item(
                                    TreeEntryView {
                                        mode,
                                        name: rest.take(nl as int),
                                        hash: after.take(20),
                                    },
                                    (sp + 1 + nl + 1 + 20) as nat,
                                )
                            }
                        },
                    }
                },
            },
        }
    }
}

/// A parsed entry occupies at least one byte and at most the whole suffix,
/// and carries a 20-byte hash.
pub proof fn lemma_parse_entry_advances(s: Seq<u8>)
    ensures
        match spec_parse_entry(s) {
            EntryStep::Item(ev, n) => 0 < n <= s.len() && ev.hash.len() == 20,
            _ => true,
        },
{
    if s.len() > 0 {
        lemma_find_first(s, 32);
        match find_first(s, 32) {
            None => {},
            Some(sp) => {
                let rest = s.skip(sp as int + 1);
                lemma_find_first(rest, 0);
            },
        }
    }
}

/// What iterating a whole payload yields: its entries in storage order, or
/// the error on which iteration stops.
pub enum TreeParse {
    Entries(Seq<TreeEntryView>),
    Invalid(GitError),
}

pub open spec fn spec_parse_tree(s: Seq<u8>) -> TreeParse
    decreases s.len(),
{
    match spec_parse_entry(s) {
        EntryStep::Finished => TreeParse::Entries(Seq::empty()),
        EntryStep::Malformed(e) => TreeParse::Invalid(e),
        EntryStep::Item(ev, n) => if 0 < n <= s.len() {
            match spec_parse_tree(s.skip(n as int)) {
                TreeParse::Entries(rest) => TreeParse::Entries(seq![ev] + rest),
                TreeParse::Invalid(e) => TreeParse::Invalid(e),
            }
        } else {
            TreeParse::Invalid(GitError::Corrupt)
        },
    }
}

/// A single-pass, non-restartable iterator over a tree payload, yielding one
/// entry at a time in storage order.
pub struct TreeIterator {
    data: Vec<u8>,
    pos: usize,
}

impl TreeIterator {
    /// The position never runs past the payload.
    pub closed spec fn wf(&self) -> bool {
        self.pos <= self.data@.len()
    }

    /// The payload bytes not yet consumed.
    pub closed spec fn remaining(&self) -> Seq<u8> {
        self.data@.skip(self.pos as int)
    }

    pub fn new(data: Vec<u8>) -> (r: TreeIterator)
        ensures
            r.wf(),
            r.remaining() == data@,
    {
        let ghost d = data@;
        let r = TreeIterator { data, pos: 0 };
        proof {
            assert(r.remaining() =~= d);
        }
        r
    }

    /// Parse the next entry. `Ok(None)` at the end of the payload;
    /// `UnknownMode` on an unrecognized mode token; `Corrupt` on a payload
    /// truncated before the space, the NUL or the end of the hash.
    pub fn next(&mut self) -> (r: Result<Option<TreeEntry>, GitError>)
        requires
            old(self).wf(),
        ensures
            final(self).wf(),
            match r {
                Ok(found) => match found {
                    None => spec_parse_entry(old(self).remaining()) is Finished
                        && final(self).remaining() == old(self).remaining(),
                    Some(e) => spec_parse_entry(old(self).remaining())
                        matches EntryStep::Item(ev, n) && e@ == ev
                        && final(self).remaining() == old(self).remaining().skip(n as int),
                },
                Err(err) => spec_parse_entry(old(self).remaining()) matches EntryStep::Malformed(x)
                    && x == err && final(self).remaining() == old(self).remaining(),
            },
{
        let ghost rem = self.remaining();
        if self.pos == self.data.len() {
            proof {
                assert(rem.len() == 0);
            }
            return Ok(None);
        }
        let sp_abs = match find_byte(&self.data, 32, self.pos) {
            None => {
                return Err(GitError::Corrupt);
            },
            Some(i) => i,
        };
        let ghost sp = sp_abs - self.pos;
        let token = copy_range(&self.data, self.pos, sp_abs);
        proof {
            assert(token@ =~= rem.take(sp as int));
        }
        let mode = match TreeEntryMode::try_from(&token) {
            Err(e) => {
                return Err(e);
            },
            Ok(m) => m,
        };
        let ghost rest = rem.skip(sp as int + 1);
        proof {
            assert(rest =~= self.data@.skip(sp_abs as int + 1));
        }
        let nl_abs = match find_byte(&self.data, 0, sp_abs + 1) {
            None => {
                return Err(GitError::Corrupt);
            },
            Some(i) => i,
        };
        let ghost nl = nl_abs - (sp_abs + 1);
        let name = copy_range(&self.data, sp_abs + 1, nl_abs);
        proof {
            assert(name@ =~= rest.take(nl as int));
        }
        let ghost after = rest.skip(nl as int + 1);
        proof {
            assert(after =~= self.data@.skip(nl_abs as int + 1));
        }
        if self.data.len() - (nl_abs + 1) < 20 {
            return Err(GitError::Corrupt);
        }
        let hash = copy_range(&self.data, nl_abs + 1, nl_abs + 1 + 20);
        proof {
            assert(hash@ =~= after.take(20));
        }
        let ghost n = sp + 1 + nl + 1 + 20;
        self.pos = nl_abs + 1 + 20;
        let e = TreeEntry { mode, name, hash };
        proof {
            assert(spec_parse_entry(rem) == EntryStep::Item(e@, n as nat));
            assert(self.remaining() =~= rem.skip(n as int));
        }
        Ok(Some(e))
    }
}

/// Collect every entry of a tree payload, in storage order.
#[verifier::loop_isolation(false)]
pub fn parse_tree(data: Vec<u8>) -> (r: Result<Vec<TreeEntry>, GitError>)
    ensures
        match r {
            Ok(v) => spec_parse_tree(data@) == TreeParse::Entries(views_of(v@)),
            Err(e) => spec_parse_tree(data@) == TreeParse::Invalid(e),
        },
{
    let ghost d = data@;
    let mut it = TreeIterator::new(data);
    let mut out: Vec<TreeEntry> = Vec::new();
    proof {
        assert(views_of(out@) =~= Seq::<TreeEntryView>::empty());
        match spec_parse_tree(d) {
            TreeParse::Entries(rest) => {
                assert(views_of(out@) + rest =~= rest);
            },
            TreeParse::Invalid(_) => {},
        }
    }
    loop
        invariant
            it.wf(),
            match spec_parse_tree(it.remaining()) {
                TreeParse::Entries(rest) => spec_parse_tree(d) == TreeParse::Entries(
                    views_of(out@) + rest,
                ),
                TreeParse::Invalid(e) => spec_parse_tree(d) == TreeParse::Invalid(e),
            },
        decreases it.remaining().len(),
    {
        let ghost pre = it.remaining();
        match it.next() {
            Ok(None) => {
                proof {
                    assert(views_of(out@) + Seq::<TreeEntryView>::empty() =~= views_of(out@));
                }
                return Ok(out);
            },
            Ok(Some(e)) => {
                proof {
                    lemma_parse_entry_advances(pre);
                }
                let ghost n = spec_parse_entry(pre)->Item_1;
                let ghost prev = views_of(out@);
                proof {
                    assert(spec_parse_entry(pre) == EntryStep::Item(e@, n));
                    assert(it.remaining() == pre.skip(n as int));
                }
                out.push(e);
                proof {
                    assert(views_of(out@) =~= prev + seq![e@]);
                    match spec_parse_tree(pre.skip(n as int)) {
                        TreeParse::Entries(rest2) => {
                            assert(spec_parse_tree(pre) == TreeParse::Entries(seq![e@] + rest2));
                            assert(prev + (seq![e@] + rest2) =~= (prev + seq![e@]) + rest2);
                            assert(spec_parse_tree(d) == TreeParse::Entries(views_of(out@) + rest2));
                        },
                        TreeParse::Invalid(_) => {},
                    }
                }
            },
            Err(err) => {
                return Err(err);
            },
        }
    }
}

/// One serialized entry parses back to itself, whatever bytes follow it.
proof fn lemma_parse_entry_bytes(e: TreeEntryView, rest: Seq<u8>)
    requires
        entry_parseable(e),
    ensures
        spec_parse_entry(entry_bytes(e) + rest) == EntryStep::Item(
            e,
            entry_bytes(e).len() as nat,
        ),
{
    let s = entry_bytes(e) + rest;
    let tok = mode_token(e.mode);
    let tl = tok.len() as int;
    lemma_mode_token_digits(e.mode);
    assert(s[tl] == 32);
    assert forall|j: int| 0 <= j < tl implies s[j] != 32 by {
        assert(s[j] == tok[j]);
    }
    lemma_find_first_is(s, 32, tl);
    assert(s.take(tl) =~= tok);
    lemma_mode_token_inverse(e.mode);
    let rest1 = s.skip(tl + 1);
    assert(rest1 =~= e.name + seq![0u8] + e.hash + rest);
    let nl = e.name.len() as int;
    assert(rest1[nl] == 0);
    assert forall|j: int| 0 <= j < nl implies rest1[j] != 0 by {
        assert(rest1[j] == e.name[j]);
    }
    lemma_find_first_is(rest1, 0, nl);
    assert(rest1.take(nl) =~= e.name);
    let after = rest1.skip(nl + 1);
    assert(after =~= e.hash + rest);
    assert(after.take(20) =~= e.hash);
    assert(TreeEntryView { mode: e.mode, name: rest1.take(nl), hash: after.take(20) } =~= e);
}

/// Iterating a serialized tree payload of N entries yields exactly those N
/// entries, in storage order, each with the mode, name and hash serialized.
pub proof fn lemma_tree_round_trip(es: Seq<TreeEntryView>)
    requires
        forall|i: int| 0 <= i < es.len() ==> entry_parseable(#[trigger] es[i]),
    ensures
        spec_parse_tree(spec_tree_payload(es)) == TreeParse::Entries(es),
    decreases es.len(),
{
    if es.len() == 0 {
        assert(Seq::<TreeEntryView>::empty() =~= es);
    } else {
        let tail = spec_tree_payload(es.drop_first());
        let s = spec_tree_payload(es);
        assert(s == entry_bytes(es[0]) + tail);
        lemma_parse_entry_bytes(es[0], tail);
        let n = entry_bytes(es[0]).len() as int;
        assert(0 < n <= s.len());
        assert(s.skip(n) =~= tail);
        assert forall|i: int| 0 <= i < es.drop_first().len() implies entry_parseable(
            #[trigger] es.drop_first()[i],
        ) by {
            assert(es.drop_first()[i] == es[i + 1]);
        }
        lemma_tree_round_trip(es.drop_first());
        assert(seq![es[0]] + es.drop_first() =~= es);
    }
}

/// Iterating the payload of a built tree yields exactly the canonical
/// arrangement of the entries it was built from, in sorted order.
pub proof fn lemma_build_then_iterate(es: Seq<TreeEntryView>)
    requires
        entries_fs(es),
    ensures
        spec_parse_tree(spec_tree_payload(spec_sort_entries(es))) == TreeParse::Entries(
            spec_sort_entries(es),
        ),
        entries_sorted(spec_sort_entries(es)),
{
    lemma_sort_entries_props(es);
    let sorted = spec_sort_entries(es);
    assert forall|i: int| 0 <= i < sorted.len() implies entry_parseable(#[trigger] sorted[i]) by {
        assert(es.contains(sorted[i]));
        let k = choose|k: int| 0 <= k < es.len() && es[k] == sorted[i];
        assert(entry_fs(es[k]));
    }
    lemma_tree_round_trip(sorted);
}

/// Determinism of the build: the tree payload, and therefore the object's
/// hash, is a function of the entries alone, so building an unmodified
/// directory twice yields the same hash.
pub proof fn lemma_write_tree_deterministic(es1: Seq<TreeEntryView>, es2: Seq<TreeEntryView>)
    requires
        es1 == es2,
    ensures
        object_bytes(tree_object_for(es1)) == object_bytes(tree_object_for(es2)),
        sha1_of(object_bytes(tree_object_for(es1))) == sha1_of(object_bytes(tree_object_for(es2))),
{
}

/// The entries serialized into a built tree stand in strictly ascending
/// canonical order, for any entries a real directory listing can produce.
pub proof fn lemma_write_tree_sorted(es: Seq<TreeEntryView>)
    requires
        entries_fs(es),
    ensures
        entries_sorted(spec_sort_entries(es)),
{
    lemma_sort_entries_props(es);
}

} // verus!
