//! Replacing an archive's backup by a newer one, and deleting what nothing refers to any more.
use crate::archive::{text, text_of, MAX_CHUNKS};
use crate::http::{content_key, is_owned, owned_key, strings_view, Object};
use crate::json::{field, list_view, Json, JsonView};
use crate::names::Names;
use crate::refusal::{refuse, seen, Refusal};
use vstd::prelude::*;

verus! {

/// The most keys that one journal retires.
pub const MAX_RETIRED: usize = 100000;

/// A snapshot that is stored but not selected yet.
pub struct Prepared {
    /// The address of its inventory.
    pub image: String,
    /// What the archive needed when it was taken.
    pub old_objects: Names,
    /// What its inventory refers to.
    pub new_objects: Names,
    /// The digest of its manifest.
    pub manifest: String,
    pub start: u64,
    pub end: u64,
    pub timeline: u32,
}

/// What the snapshot worker has finished.
pub enum Done {
    Export(Prepared),
    Cleanup,
}

/// Takes what the worker has finished. A snapshot waits until the log it ends in is published.
pub fn completed_at(response: &mut Option<Done>, published: u64) -> (r: Option<Done>)
    ensures
        if *old(response) matches Some(Done::Export(p)) && p.end > published {
            r is None && *final(response) == *old(response)
        } else {
            r == *old(response) && *final(response) is None
        },
{
    let early: bool = match response {
        Some(Done::Export(p)) => p.end > published,
        _ => false,
    };
    if early {
        None
    } else {
        response.take()
    }
}

/// The key of an object of this kind.
pub open spec fn key_of(kind: Seq<char>, address: Seq<char>) -> Seq<char> {
    kind + "/"@ + address
}

/// An inventory of the log under way: which descriptor is next, and what was found.
pub struct Inventory {
    pub found: Names,
    pub tail: Json,
    pub count: usize,
}

impl Inventory {
    /// Begins at the end of the log.
    pub fn begin(head: &Json) -> (r: Inventory)
        ensures
            r.found.wf(),
            r.found@ == Set::<Seq<char>>::empty(),
            r.tail@ == head@.at("tail"@),
            r.count == 0,
    {
        Inventory { found: Names::new(), tail: field(head, "tail"), count: 0 }
    }

    /// The address of the next descriptor; nothing where the log begins.
    pub fn next(&mut self) -> (r: Result<Option<String>, Refusal>)
        requires
            old(self).count <= MAX_CHUNKS,
        ensures
            final(self).found == old(self).found,
            final(self).tail == old(self).tail,
            match old(self).tail@ {
                JsonView::Text(k) => if old(self).count >= MAX_CHUNKS {
                    seen(r) == Err::<Option<String>, Seq<char>>("retirement WAL inventory limit"@)
                } else {
                    r matches Ok(Some(s)) && s@ == k && final(self).count == old(self).count + 1
                },
                _ => r matches Ok(None) && final(self).count == old(self).count,
            },
    {
        match self.tail.as_str() {
            None => Ok(None),
            Some(k) => {
                if self.count >= MAX_CHUNKS {
                    return Err(refuse("retirement WAL inventory limit"));
                }
                let key = k.to_owned();
                self.count += 1;
                Ok(Some(key))
            },
        }
    }

    /// The descriptor `d` is at the address `key`.
    pub fn accept(&mut self, key: &str, d: &Json) -> (r: Result<(), Refusal>)
        requires
            old(self).found.wf(),
        ensures
            final(self).count == old(self).count,
            match text_of(d@, "chunk"@) {
                Err(e) => r matches Err(x) && x@ == e,
                Ok(c) => {
                    &&& r is Ok
                    &&& final(self).found.wf()
                    &&& final(self).found@ == old(self).found@.insert(
                        key_of("descriptors"@, key@),
                    ).insert(key_of("chunks"@, c))
                    &&& final(self).tail@ == d@.at("previous"@)
                },
            },
    {
        let chunk = match text(d, "chunk") {
            Ok(c) => c,
            Err(e) => return Err(e),
        };
        self.found.insert(content_key("descriptors", key));
        self.found.insert(content_key("chunks", chunk));
        self.tail = field(d, "previous");
        Ok(())
    }

    /// Completes the inventory: the histories of the heads in `nodes`, the backup and what its
    /// snapshot refers to, and the journal of what was retired.
    pub fn finish(self, head: &Json, nodes: &Vec<Json>, backup: &Json, image: &Names) -> (r: Result<
        Names,
        Refusal,
    >)
        requires
            self.found.wf(),
            image.wf(),
        ensures
            match text_of(backup@, "image"@) {
                Err(e) => r matches Err(x) && x@ == e,
                Ok(i) => {
                    &&& r matches Ok(n)
                    &&& n.wf()
                    &&& n@ == needed(self.found@, head@, list_view(nodes@), backup@, i, image@)
                    &&& self.found@.subset_of(n@)
                    &&& image@.subset_of(n@)
                    &&& n@.contains(key_of("snapshot-index"@, i))
                    &&& head@.at("backup"@) matches JsonView::Text(b) ==> n@.contains(
                        key_of("backups"@, b),
                    )
                    &&& backup@.at("root_history"@) matches JsonView::Text(h) ==> n@.contains(
                        key_of("histories"@, h),
                    )
                    &&& head@.at("garbage"@) matches JsonView::Text(g) ==> n@.contains(
                        key_of("retired"@, g),
                    )
                },
            },
    {
        let mut found = self.found;
        let ghost first = found@;
        proof {
            if text_of(backup@, "image"@) is Ok {
                lemma_inventory_is_complete(
                    first,
                    head@,
                    list_view(nodes@),
                    backup@,
                    text_of(backup@, "image"@)->Ok_0,
                    image@,
                );
            }
        }
        let ghost all = list_view(nodes@);
        let mut i: usize = 0;
        proof {
            assert(all.take(0) =~= Seq::empty());
        }
        while i < nodes.len()
            invariant
                found.wf(),
                all == list_view(nodes@),
                i <= nodes@.len(),
                found@ == with_histories(first, all.take(i as int)),
            decreases nodes@.len() - i,
        {
            proof {
                assert(all.take(i + 1).drop_last() =~= all.take(i as int));
                assert(all.take(i + 1).last() == nodes@[i as int]@);
            }
            let transition = field(&nodes[i], "transition");
            let history = field(&transition, "history");
            match history.as_str() {
                Some(k) => {
                    found.insert(content_key("histories", k));
                },
                None => {},
            }
            i += 1;
        }
        proof {
            assert(all.take(all.len() as int) =~= all);
        }
        match field(backup, "root_history").as_str() {
            Some(k) => {
                found.insert(content_key("histories", k));
            },
            None => {},
        }
        match field(head, "backup").as_str() {
            Some(k) => {
                found.insert(content_key("backups", k));
            },
            None => {},
        }
        let index = match text(backup, "image") {
            Ok(k) => k,
            Err(e) => return Err(e),
        };
        found.insert(content_key("snapshot-index", index));
        found.extend(image);
        match field(head, "garbage").as_str() {
            Some(k) => {
                found.insert(content_key("retired", k));
            },
            None => {},
        }
        Ok(found)
    }
}

/// The names with a key of this kind added, where `v` is an address.
pub open spec fn with_key(names: Set<Seq<char>>, kind: Seq<char>, v: JsonView) -> Set<Seq<char>> {
    match v {
        JsonView::Text(k) => names.insert(key_of(kind, k)),
        _ => names,
    }
}

/// The names with those of the histories that heads branched off by.
pub open spec fn with_histories(names: Set<Seq<char>>, nodes: Seq<JsonView>) -> Set<Seq<char>>
    decreases nodes.len(),
{
    if nodes.len() == 0 {
        names
    } else {
        with_key(
            with_histories(names, nodes.drop_last()),
            "histories"@,
            nodes.last().at("transition"@).at("history"@),
        )
    }
}

/// The objects that an archive with this head needs, where `log` are those of its log.
pub open spec fn needed(
    log: Set<Seq<char>>,
    head: JsonView,
    nodes: Seq<JsonView>,
    backup: JsonView,
    index: Seq<char>,
    image: Set<Seq<char>>,
) -> Set<Seq<char>> {
    let a = with_histories(log, nodes);
    let b = with_key(a, "histories"@, backup.at("root_history"@));
    let c = with_key(b, "backups"@, head.at("backup"@));
    let d = c.insert(key_of("snapshot-index"@, index)).union(image);
    with_key(d, "retired"@, head.at("garbage"@))
}

proof fn lemma_histories(names: Set<Seq<char>>, nodes: Seq<JsonView>, name: Seq<char>)
    ensures
        with_histories(names, nodes).contains(name) <==> names.contains(name) || exists|i: int|
            0 <= i < nodes.len() && is_key(
                name,
                "histories"@,
                (#[trigger] nodes[i]).at("transition"@).at("history"@),
            ),
    decreases nodes.len(),
{
    if nodes.len() > 0 {
        let rest = nodes.drop_last();
        lemma_histories(names, rest, name);
        if exists|i: int|
            0 <= i < rest.len() && is_key(
                name,
                "histories"@,
                (#[trigger] rest[i]).at("transition"@).at("history"@),
            ) {
            let i = choose|i: int|
                0 <= i < rest.len() && is_key(
                    name,
                    "histories"@,
                    (#[trigger] rest[i]).at("transition"@).at("history"@),
                );
            assert(nodes[i] == rest[i]);
        }
        if exists|i: int|
            0 <= i < nodes.len() && is_key(
                name,
                "histories"@,
                (#[trigger] nodes[i]).at("transition"@).at("history"@),
            ) {
            let i = choose|i: int|
                0 <= i < nodes.len() && is_key(
                    name,
                    "histories"@,
                    (#[trigger] nodes[i]).at("transition"@).at("history"@),
                );
            if i < rest.len() {
                assert(rest[i] == nodes[i]);
            }
        }
        assert(nodes[nodes.len() - 1] == nodes.last());
    }
}

/// `name` is the key of this kind whose address `v` is.
pub open spec fn is_key(name: Seq<char>, kind: Seq<char>, v: JsonView) -> bool {
    v matches JsonView::Text(k) && name == kind + "/"@ + k
}

/// An inventory lists everything that a restore from the head reads, and nothing else: what was
/// found in the log, the history of every head that was forked off another, the root's history,
/// the backup, the index of its snapshot, every object that the snapshot refers to, and the
/// journal of what was retired.
pub proof fn lemma_inventory_is_exact(
    log: Set<Seq<char>>,
    head: JsonView,
    nodes: Seq<JsonView>,
    backup: JsonView,
    index: Seq<char>,
    image: Set<Seq<char>>,
    name: Seq<char>,
)
    ensures
        needed(log, head, nodes, backup, index, image).contains(name) <==> {
            ||| log.contains(name)
            ||| image.contains(name)
            ||| name == "snapshot-index"@ + "/"@ + index
            ||| is_key(name, "backups"@, head.at("backup"@))
            ||| is_key(name, "histories"@, backup.at("root_history"@))
            ||| is_key(name, "retired"@, head.at("garbage"@))
            ||| exists|i: int|
                0 <= i < nodes.len() && is_key(
                    name,
                    "histories"@,
                    (#[trigger] nodes[i]).at("transition"@).at("history"@),
                )
        },
{
    lemma_histories(log, nodes, name);
}

proof fn lemma_inventory_is_complete(
    log: Set<Seq<char>>,
    head: JsonView,
    nodes: Seq<JsonView>,
    backup: JsonView,
    index: Seq<char>,
    image: Set<Seq<char>>,
)
    ensures
        log.subset_of(needed(log, head, nodes, backup, index, image)),
        image.subset_of(needed(log, head, nodes, backup, index, image)),
{
    let all = needed(log, head, nodes, backup, index, image);
    assert forall|name: Seq<char>| log.contains(name) || image.contains(name) implies all.contains(
        name,
    ) by {
        lemma_inventory_is_exact(log, head, nodes, backup, index, image, name);
    }
}

/// Nothing that is needed, and nothing but content-addressed objects, may be retired.
pub open spec fn retirable(retired: Seq<Seq<char>>, live: Set<Seq<char>>) -> bool {
    forall|i: int|
        0 <= i < retired.len() ==> is_owned(#[trigger] retired[i]) && !live.contains(retired[i])
}

/// Checks a journal of retired keys against what is needed.
pub fn validate_retirement(retired: &[String], live: &Names) -> (r: Result<(), Refusal>)
    requires
        live.wf(),
    ensures
        seen(r) == (if retirable(strings_view(retired@), live@) {
            Ok(())
        } else {
            Err("retirement journal includes a protected or unsupported object"@)
        }),
{
    let ghost all = strings_view(retired@);
    let mut i: usize = 0;
    while i < retired.len()
        invariant
            live.wf(),
            all == strings_view(retired@),
            i <= retired@.len(),
            forall|j: int|
                0 <= j < i ==> is_owned(#[trigger] all[j]) && !live@.contains(all[j]),
        decreases retired@.len() - i,
    {
        proof {
            assert(all[i as int] == retired@[i as int]@);
        }
        if !owned_key(retired[i].as_str()) || live.contains(retired[i].as_str()) {
            return Err(refuse("retirement journal includes a protected or unsupported object"));
        }
        i += 1;
    }
    Ok(())
}

/// Checks a journal before anything in it is deleted.
pub fn check_journal(retired: &Vec<String>, live: &Names) -> (r: Result<(), Refusal>)
    requires
        live.wf(),
    ensures
        seen(r) == (if retired@.len() > MAX_RETIRED {
            Err("retirement inventory limit"@)
        } else if retirable(strings_view(retired@), live@) {
            Ok(())
        } else {
            Err("retirement journal includes a protected or unsupported object"@)
        }),
{
    if retired.len() > MAX_RETIRED {
        return Err(refuse("retirement inventory limit"));
    }
    validate_retirement(retired.as_slice(), live)
}

/// The list of strings that some bytes are the JSON text of, if they are.
pub uninterp spec fn strings_in(bytes: Seq<u8>) -> Option<Seq<Seq<char>>>;

/// `serde_json::from_slice`, for a list of strings: the list that the bytes are the text of, or
/// nothing where they are not such a text. The bytes alone determine it.
#[verifier::external_body]
fn read_strings(bytes: &[u8]) -> (r: Option<Vec<String>>)
    ensures
        match r {
            Some(v) => strings_in(bytes@) == Some(strings_view(v@)),
            None => strings_in(bytes@) is None,
        },
{
    serde_json::from_slice::<Vec<String>>(bytes).ok()
}

/// The keys that a journal retires, all of which may be deleted.
pub fn journal(bytes: &[u8], live: &Names) -> (r: Result<Vec<String>, Refusal>)
    requires
        live.wf(),
    ensures
        match strings_in(bytes@) {
            None => r matches Err(e) && e@ == "retirement journal is not a list of keys"@,
            Some(l) => if l.len() > MAX_RETIRED {
                r matches Err(e) && e@ == "retirement inventory limit"@
            } else if !retirable(l, live@) {
                r matches Err(e) && e@
                    == "retirement journal includes a protected or unsupported object"@
            } else {
                r matches Ok(v) && strings_view(v@) == l
            },
        },
{
    let retired = match read_strings(bytes) {
        Some(v) => v,
        None => return Err(refuse("retirement journal is not a list of keys")),
    };
    match check_journal(&retired, live) {
        Ok(()) => Ok(retired),
        Err(e) => Err(e),
    }
}

/// The keys of a page that an archive owns and does not need.
pub open spec fn orphaned(keys: Seq<Seq<char>>, live: Set<Seq<char>>) -> Seq<Seq<char>> {
    keys.filter(|k: Seq<char>| is_owned(k) && !live.contains(k))
}

/// What a sweep deletes of a page: exactly the keys that the archive owns and does not need.
pub proof fn lemma_orphans_are_exact(keys: Seq<Seq<char>>, live: Set<Seq<char>>, k: Seq<char>)
    ensures
        orphaned(keys, live).contains(k) <==> keys.contains(k) && is_owned(k) && !live.contains(k),
{
    let gone = |k: Seq<char>| is_owned(k) && !live.contains(k);
    lemma_filtered(keys, gone, k);
}

proof fn lemma_filtered(s: Seq<Seq<char>>, p: spec_fn(Seq<char>) -> bool, k: Seq<char>)
    ensures
        s.filter(p).contains(k) <==> s.contains(k) && p(k),
    decreases s.len(),
{
    reveal(Seq::filter);
    if s.len() > 0 {
        let t = s.drop_last();
        lemma_filtered(t, p, k);
        if t.contains(k) {
            let i = choose|i: int| 0 <= i < t.len() && t[i] == k;
            assert(s[i] == k);
        }
        if s.contains(k) {
            let i = choose|i: int| 0 <= i < s.len() && s[i] == k;
            if i < t.len() {
                assert(t[i] == k);
            }
        }
        assert(s[s.len() - 1] == s.last());
        let f = t.filter(p);
        if p(s.last()) {
            let g = f.push(s.last());
            assert(g[g.len() - 1] == s.last());
            if f.contains(k) {
                let i = choose|i: int| 0 <= i < f.len() && f[i] == k;
                assert(g[i] == k);
            }
            if g.contains(k) {
                let i = choose|i: int| 0 <= i < g.len() && g[i] == k;
                if i < f.len() {
                    assert(f[i] == k);
                }
            }
        }
    }
}

/// A sweep that goes by an inventory deletes nothing that a restore from the head reads: no object
/// of the snapshot, of the log, of a history, nor the backup, its index or the journal.
pub proof fn lemma_sweep_spares_what_is_needed(
    keys: Seq<Seq<char>>,
    log: Set<Seq<char>>,
    head: JsonView,
    nodes: Seq<JsonView>,
    backup: JsonView,
    index: Seq<char>,
    image: Set<Seq<char>>,
    k: Seq<char>,
)
    requires
        ({
            ||| log.contains(k)
            ||| image.contains(k)
            ||| k == "snapshot-index"@ + "/"@ + index
            ||| is_key(k, "backups"@, head.at("backup"@))
            ||| is_key(k, "histories"@, backup.at("root_history"@))
            ||| is_key(k, "retired"@, head.at("garbage"@))
            ||| exists|i: int|
                0 <= i < nodes.len() && is_key(
                    k,
                    "histories"@,
                    (#[trigger] nodes[i]).at("transition"@).at("history"@),
                )
        }),
    ensures
        !orphaned(keys, needed(log, head, nodes, backup, index, image)).contains(k),
{
    lemma_inventory_is_exact(log, head, nodes, backup, index, image, k);
    lemma_orphans_are_exact(keys, needed(log, head, nodes, backup, index, image), k);
}

/// The keys of a page that are to be deleted.
pub fn orphans(keys: &Vec<String>, live: &Names) -> (r: Vec<String>)
    requires
        live.wf(),
    ensures
        strings_view(r@) == orphaned(strings_view(keys@), live@),
{
    let ghost all = strings_view(keys@);
    let ghost gone = |k: Seq<char>| is_owned(k) && !live@.contains(k);
    let mut r: Vec<String> = Vec::new();
    let mut i: usize = 0;
    proof {
        reveal(Seq::filter);
        assert(all.take(0) =~= Seq::empty());
        assert(strings_view(r@) =~= Seq::empty());
    }
    while i < keys.len()
        invariant
            live.wf(),
            all == strings_view(keys@),
            gone == (|k: Seq<char>| is_owned(k) && !live@.contains(k)),
            i <= keys@.len(),
            strings_view(r@) == all.take(i as int).filter(gone),
        decreases keys@.len() - i,
    {
        let ghost was = strings_view(r@);
        proof {
            reveal(Seq::filter);
            assert(all.take(i + 1).drop_last() =~= all.take(i as int));
            assert(all.take(i + 1).last() == keys@[i as int]@);
        }
        if owned_key(keys[i].as_str()) && !live.contains(keys[i].as_str()) {
            r.push(keys[i].clone());
            proof {
                assert(strings_view(r@) =~= was.push(all[i as int]));
            }
        }
        i += 1;
    }
    proof {
        assert(all.take(all.len() as int) =~= all);
    }
    r
}

/// What a sweep over an archive does next.
pub enum Sweep {
    /// Delete these keys, then list on after this one.
    Delete { keys: Vec<String>, after: String },
    /// The listing has ended.
    Over,
}

/// A sweep goes on only while the head is the one that was claimed. `keys` is the page of the
/// listing that was read after the head.
pub fn sweep(current: &Object, claimed: &Object, keys: &Vec<String>, live: &Names) -> (r: Result<
    Sweep,
    Refusal,
>)
    requires
        live.wf(),
    ensures
        if current@ != claimed@ {
            seen(r) == Err::<Sweep, Seq<char>>("ownership changed during orphan cleanup"@)
        } else if keys@.len() == 0 {
            r matches Ok(Sweep::Over)
        } else {
            r matches Ok(Sweep::Delete { keys: gone, after }) && strings_view(gone@) == orphaned(
                strings_view(keys@),
                live@,
            ) && after@ == keys@.last()@
        },
{
    match check_owner(current, claimed) {
        Ok(_) => {},
        Err(e) => return Err(e),
    }
    if keys.len() == 0 {
        return Ok(Sweep::Over);
    }
    let gone = orphans(keys, live);
    Ok(Sweep::Delete { keys: gone, after: keys[keys.len() - 1].clone() })
}

/// Checks that the head is still the one that was claimed.
pub fn check_owner(current: &Object, claimed: &Object) -> (r: Result<(), Refusal>)
    ensures
        seen(r) == (if current@ == claimed@ {
            Ok(())
        } else {
            Err("ownership changed during orphan cleanup"@)
        }),
{
    if !current.same(claimed) {
        return Err(refuse("ownership changed during orphan cleanup"));
    }
    Ok(())
}

} // verus!
