//! Finding the map the HTTP/2 parser keeps the state of its dynamic tables in.
//!
//! The parser does not hand the map out for anything but lookups, so it is found
//! through the parser itself: among the extension programs linked to the program
//! the parser is attached to, the one using a map of that name.

use vstd::prelude::*;

use crate::wire;

verus! {

/// The name the HTTP/2 parser's `dynamic_table_info` map goes by:
/// `dynamic_table_i`. The kernel cuts map names to 15 bytes.
pub const DYNAMIC_TABLE_INFO: [u8; 15] = [
    100, 121, 110, 97, 109, 105, 99, 95, 116, 97, 98, 108, 101, 95, 105,
];

/// A link between an eBPF program and what it is attached to.
#[derive(Clone, Copy, Debug)]
pub struct LinkInfo {
    /// The program.
    pub prog_id: u32,
    /// The program it extends, if it is a tracing link.
    pub target: Option<u32>,
}

/// An eBPF program.
#[derive(Debug)]
pub struct ProgInfo {
    pub id: u32,
    /// The maps it uses.
    pub map_ids: Vec<u32>,
}

/// The programs that extend `target`, in the order of their links.
pub open spec fn extensions(links: Seq<LinkInfo>, target: u32) -> Seq<u32>
    decreases links.len(),
{
    if links.len() == 0 {
        seq![]
    } else {
        let init = extensions(links.drop_last(), target);
        if links.last().target == Some(target) {
            init.push(links.last().prog_id)
        } else {
            init
        }
    }
}

/// The maps that the programs of `progs` with an id in `ids` use, in the order of
/// the programs.
pub open spec fn maps_of(progs: Seq<ProgInfo>, ids: Seq<u32>) -> Seq<u32>
    decreases progs.len(),
{
    if progs.len() == 0 {
        seq![]
    } else {
        let init = maps_of(progs.drop_last(), ids);
        if ids.contains(progs.last().id) {
            init + progs.last().map_ids@
        } else {
            init
        }
    }
}

/// The maps of the programs that extend `target`.
pub open spec fn candidates(links: Seq<LinkInfo>, progs: Seq<ProgInfo>, target: u32) -> Seq<u32> {
    maps_of(progs, extensions(links, target))
}

/// Returns the programs that extend `target`.
pub fn find_parsers(links: &[LinkInfo], target: u32) -> (ids: Vec<u32>)
    ensures
        ids@ == extensions(links@, target),
{
    let mut ids: Vec<u32> = Vec::new();
    let n: usize = links.len();
    for i in 0..n
        invariant
            n == links@.len(),
            ids@ == extensions(links@.take(i as int), target),
    {
        assert(links@.take(i + 1).drop_last() =~= links@.take(i as int));
        match links[i].target {
            Some(t) => {
                if t == target {
                    ids.push(links[i].prog_id);
                }
            },
            None => {},
        }
    }
    assert(links@.take(n as int) =~= links@);
    ids
}

fn contains(ids: &[u32], id: u32) -> (found: bool)
    ensures
        found == ids@.contains(id),
{
    let n: usize = ids.len();
    for i in 0..n
        invariant
            n == ids@.len(),
            forall|j: int| 0 <= j < i ==> ids@[j] != id,
    {
        if ids[i] == id {
            return true;
        }
    }
    false
}

/// Returns the maps that the programs of `progs` with an id in `ids` use.
pub fn find_maps(progs: &[ProgInfo], ids: &[u32]) -> (maps: Vec<u32>)
    ensures
        maps@ == maps_of(progs@, ids@),
{
    let mut maps: Vec<u32> = Vec::new();
    let n: usize = progs.len();
    for i in 0..n
        invariant
            n == progs@.len(),
            maps@ == maps_of(progs@.take(i as int), ids@),
    {
        assert(progs@.take(i + 1).drop_last() =~= progs@.take(i as int));
        if contains(ids, progs[i].id) {
            let ghost before = maps@;
            let m: usize = progs[i].map_ids.len();
            for j in 0..m
                invariant
                    i < progs@.len(),
                    m == progs@[i as int].map_ids@.len(),
                    maps@ == before + progs@[i as int].map_ids@.take(j as int),
            {
                maps.push(progs[i].map_ids[j]);
            }
            assert(progs@[i as int].map_ids@.take(m as int) =~= progs@[i as int].map_ids@);
        }
    }
    assert(progs@.take(n as int) =~= progs@);
    maps
}

/// What has to be done next to find the map.
#[derive(Clone, Copy, Debug, PartialEq, Eq, Structural)]
pub enum SearchStep {
    /// Open the map of this id and look at its name.
    Open { id: u32 },
    /// Nothing, this is the map.
    Found { id: u32 },
    /// Nothing, there is no such map.
    NotFound,
}

/// Where the search is after the maps of these names have been looked at.
pub open spec fn step_at(candidates: Seq<u32>, names: Seq<Seq<u8>>) -> SearchStep
    decreases names.len(),
{
    if names.len() == 0 {
        candidate(candidates, 0)
    } else {
        match step_at(candidates, names.drop_last()) {
            SearchStep::Open { id } => if names.last() == DYNAMIC_TABLE_INFO@ {
                SearchStep::Found { id }
            } else {
                candidate(candidates, names.len() as int)
            },
            step => step,
        }
    }
}

/// The step at which it is the turn of the `i`th map.
pub open spec fn candidate(candidates: Seq<u32>, i: int) -> SearchStep {
    if i < candidates.len() {
        SearchStep::Open { id: candidates[i] }
    } else {
        SearchStep::NotFound
    }
}

/// A search for the map among the ones the parser uses.
pub struct MapSearch {
    pub candidates: Vec<u32>,
    /// How many of them have been looked at.
    pub seen: usize,
    pub step: SearchStep,
}

impl MapSearch {
    /// Whether the search is where it should be.
    pub open spec fn wf(self) -> bool {
        &&& self.seen <= self.candidates@.len()
        &&& self.step is Open ==> self.seen < self.candidates@.len() && self.step == candidate(
            self.candidates@,
            self.seen as int,
        )
    }

    /// Starts to look for the map of the parser that extends `target`.
    pub fn new(links: &[LinkInfo], progs: &[ProgInfo], target: u32) -> (search: MapSearch)
        ensures
            search.wf(),
            search.candidates@ == candidates(links@, progs@, target),
            search.seen == 0,
            search.step == step_at(search.candidates@, seq![]),
    {
        let candidates: Vec<u32> = find_maps(progs, &find_parsers(links, target));
        let step: SearchStep = if candidates.len() > 0 {
            SearchStep::Open { id: candidates[0] }
        } else {
            SearchStep::NotFound
        };
        MapSearch { candidates, seen: 0, step }
    }

    /// Takes in the name of the map that had to be opened and returns what has to
    /// be done next.
    pub fn look(&mut self, name: &[u8]) -> (step: SearchStep)
        requires
            old(self).wf(),
        ensures
            final(self).wf(),
            final(self).candidates@ == old(self).candidates@,
            final(self).step == step,
            match old(self).step {
                SearchStep::Open { id } => {
                    &&& final(self).seen == old(self).seen + 1
                    &&& step == if name@ == DYNAMIC_TABLE_INFO@ {
                        SearchStep::Found { id }
                    } else {
                        candidate(old(self).candidates@, old(self).seen + 1)
                    }
                },
                done => final(self).seen == old(self).seen && step == done,
            },
            forall|names: Seq<Seq<u8>>|
                names.len() == old(self).seen && old(self).step == #[trigger] step_at(
                    old(self).candidates@,
                    names,
                ) ==> step == step_at(old(self).candidates@, names.push(name@)),
    {
        match self.step {
            SearchStep::Open { id } => {
                let n: usize = self.candidates.len();
                self.seen = self.seen + 1;
                self.step = if wire::same(name, &DYNAMIC_TABLE_INFO) {
                    SearchStep::Found { id }
                } else if self.seen < n {
                    SearchStep::Open { id: self.candidates[self.seen] }
                } else {
                    SearchStep::NotFound
                };
            },
            _ => {},
        }
        assert forall|names: Seq<Seq<u8>>|
            names.len() == old(self).seen && old(self).step == #[trigger] step_at(
                old(self).candidates@,
                names,
            ) implies self.step == step_at(old(self).candidates@, names.push(name@)) by {
            assert(names.push(name@).drop_last() =~= names);
        }
        self.step
    }
}

/// Whether the map of the name `names[i]` is the first of that of the parser.
pub open spec fn first_match(names: Seq<Seq<u8>>, i: int) -> bool {
    &&& 0 <= i < names.len()
    &&& names[i] == DYNAMIC_TABLE_INFO@
    &&& forall|j: int| 0 <= j < i ==> #[trigger] names[j] != DYNAMIC_TABLE_INFO@
}

/// A search finds the first map of the name that the parser gives it, whatever
/// maps come after it, and it only gives up once it has looked at all of them.
pub proof fn law_search(candidates: Seq<u32>, names: Seq<Seq<u8>>)
    requires
        names.len() <= candidates.len(),
    ensures
        forall|i: int| #[trigger]
            first_match(names, i) ==> step_at(candidates, names) == (SearchStep::Found {
                id: candidates[i],
            }),
        (forall|i: int| 0 <= i < names.len() ==> #[trigger] names[i] != DYNAMIC_TABLE_INFO@)
            ==> step_at(candidates, names) == if names.len() < candidates.len() {
            SearchStep::Open { id: candidates[names.len() as int] }
        } else {
            SearchStep::NotFound
        },
    decreases names.len(),
{
    if names.len() > 0 {
        let init = names.drop_last();
        law_search(candidates, init);
        assert forall|i: int| #[trigger] first_match(names, i) implies step_at(candidates, names)
            == (SearchStep::Found { id: candidates[i] }) by {
            if i < init.len() {
                assert(first_match(init, i)) by {
                    assert(init[i] == names[i]);
                    assert forall|j: int| 0 <= j < i implies #[trigger] init[j]
                        != DYNAMIC_TABLE_INFO@ by {
                        assert(init[j] == names[j]);
                    }
                }
            } else {
                assert forall|j: int| 0 <= j < init.len() implies #[trigger] init[j]
                    != DYNAMIC_TABLE_INFO@ by {
                    assert(init[j] == names[j]);
                }
            }
        }
        if forall|i: int| 0 <= i < names.len() ==> #[trigger] names[i] != DYNAMIC_TABLE_INFO@ {
            assert forall|j: int| 0 <= j < init.len() implies #[trigger] init[j]
                != DYNAMIC_TABLE_INFO@ by {
                assert(init[j] == names[j]);
            }
            assert(names.last() == names[names.len() - 1]);
        }
    }
}

/// Whether a program that extends `target` uses the map `id`, as the `i`th link, the
/// `j`th program and its `k`th map say.
pub open spec fn used(
    links: Seq<LinkInfo>,
    progs: Seq<ProgInfo>,
    target: u32,
    id: u32,
    i: int,
    j: int,
    k: int,
) -> bool {
    &&& 0 <= i < links.len()
    &&& 0 <= j < progs.len()
    &&& 0 <= k < progs[j].map_ids@.len()
    &&& links[i].target == Some(target)
    &&& links[i].prog_id == progs[j].id
    &&& progs[j].map_ids@[k] == id
}

proof fn lemma_extends(links: Seq<LinkInfo>, target: u32, prog: u32)
    ensures
        extensions(links, target).contains(prog) <==> exists|i: int|
            0 <= i < links.len() && (#[trigger] links[i]).target == Some(target)
                && links[i].prog_id == prog,
    decreases links.len(),
{
    if links.len() > 0 {
        let init = links.drop_last();
        let before = extensions(init, target);
        let after = extensions(links, target);
        lemma_extends(init, target, prog);
        assert forall|i: int| 0 <= i < init.len() implies #[trigger] init[i] == links[i] by {}
        if after.contains(prog) {
            let n = choose|n: int| 0 <= n < after.len() && after[n] == prog;
            if n < before.len() {
                assert(before[n] == prog);
                let i = choose|i: int|
                    0 <= i < init.len() && (#[trigger] init[i]).target == Some(target)
                        && init[i].prog_id == prog;
                assert(links[i].target == Some(target));
            } else {
                assert(links[links.len() - 1].target == Some(target));
            }
        }
        if exists|i: int|
            0 <= i < links.len() && (#[trigger] links[i]).target == Some(target)
                && links[i].prog_id == prog {
            let i = choose|i: int|
                0 <= i < links.len() && (#[trigger] links[i]).target == Some(target)
                    && links[i].prog_id == prog;
            if i < init.len() {
                assert(init[i].target == Some(target));
                let n = choose|n: int| 0 <= n < before.len() && before[n] == prog;
                assert(after[n] == prog);
            } else {
                assert(after[before.len() as int] == prog);
            }
        }
    }
}

proof fn lemma_uses(progs: Seq<ProgInfo>, ids: Seq<u32>, id: u32)
    ensures
        maps_of(progs, ids).contains(id) <==> exists|j: int, k: int|
            0 <= j < progs.len() && ids.contains(progs[j].id) && 0 <= k
                < progs[j].map_ids@.len() && #[trigger] progs[j].map_ids@[k] == id,
    decreases progs.len(),
{
    if progs.len() > 0 {
        let init = progs.drop_last();
        let last = progs.last();
        let before = maps_of(init, ids);
        let after = maps_of(progs, ids);
        lemma_uses(init, ids, id);
        assert forall|j: int| 0 <= j < init.len() implies #[trigger] init[j] == progs[j] by {}
        if after.contains(id) {
            let n = choose|n: int| 0 <= n < after.len() && after[n] == id;
            if n < before.len() {
                assert(before[n] == id);
                let (j, k) = choose|j: int, k: int|
                    0 <= j < init.len() && ids.contains(init[j].id) && 0 <= k
                        < init[j].map_ids@.len() && #[trigger] init[j].map_ids@[k] == id;
                assert(progs[j].map_ids@[k] == id);
            } else {
                assert(progs[progs.len() - 1].map_ids@[n - before.len()] == id);
            }
        }
        if exists|j: int, k: int|
            0 <= j < progs.len() && ids.contains(progs[j].id) && 0 <= k
                < progs[j].map_ids@.len() && #[trigger] progs[j].map_ids@[k] == id {
            let (j, k) = choose|j: int, k: int|
                0 <= j < progs.len() && ids.contains(progs[j].id) && 0 <= k
                    < progs[j].map_ids@.len() && #[trigger] progs[j].map_ids@[k] == id;
            if j < init.len() {
                assert(init[j].map_ids@[k] == id);
                let n = choose|n: int| 0 <= n < before.len() && before[n] == id;
                assert(after[n] == id);
            } else {
                assert(after[before.len() + k] == id);
            }
        }
    }
}

/// The maps that are looked at are those that a program linked to `target` uses, and all
/// of them.
pub proof fn law_candidates(links: Seq<LinkInfo>, progs: Seq<ProgInfo>, target: u32, id: u32)
    ensures
        candidates(links, progs, target).contains(id) <==> exists|i: int, j: int, k: int|
            #[trigger] used(links, progs, target, id, i, j, k),
{
    let ids = extensions(links, target);
    lemma_uses(progs, ids, id);
    if candidates(links, progs, target).contains(id) {
        let (j, k) = choose|j: int, k: int|
            0 <= j < progs.len() && ids.contains(progs[j].id) && 0 <= k
                < progs[j].map_ids@.len() && #[trigger] progs[j].map_ids@[k] == id;
        lemma_extends(links, target, progs[j].id);
        let i = choose|i: int|
            0 <= i < links.len() && (#[trigger] links[i]).target == Some(target)
                && links[i].prog_id == progs[j].id;
        assert(used(links, progs, target, id, i, j, k));
    }
    if exists|i: int, j: int, k: int| #[trigger] used(links, progs, target, id, i, j, k) {
        let (i, j, k) = choose|i: int, j: int, k: int|
            #[trigger] used(links, progs, target, id, i, j, k);
        lemma_extends(links, target, progs[j].id);
        assert(links[i].target == Some(target));
        assert(progs[j].map_ids@[k] == id);
    }
}

/// The name that is looked for is `dynamic_table_i`.
pub proof fn law_map_name()
    ensures
        DYNAMIC_TABLE_INFO@ == Seq::new(15, |i: int| "dynamic_table_i"@[i] as u8),
        "dynamic_table_i"@.len() == 15,
{
    reveal_strlit("dynamic_table_i");
    assert(DYNAMIC_TABLE_INFO@ =~= Seq::new(15, |i: int| "dynamic_table_i"@[i] as u8));
}

/// The programs that extend `target` are those with a link that says so, in the order of
/// the links, once for each.
pub proof fn law_extensions(a: Seq<LinkInfo>, b: Seq<LinkInfo>, link: LinkInfo, target: u32)
    ensures
        extensions(a + b, target) == extensions(a, target) + extensions(b, target),
        link.target == Some(target) ==> extensions(seq![link], target) == seq![link.prog_id],
        link.target != Some(target) ==> extensions(seq![link], target) == Seq::<u32>::empty(),
    decreases b.len(),
{
    assert(seq![link].drop_last() =~= Seq::<LinkInfo>::empty());
    assert(extensions(seq![link].drop_last(), target) =~= Seq::<u32>::empty());
    assert(Seq::<u32>::empty().push(link.prog_id) =~= seq![link.prog_id]);
    if b.len() == 0 {
        assert(a + b =~= a);
        assert(extensions(a, target) + extensions(b, target) =~= extensions(a, target));
    } else {
        assert((a + b).drop_last() =~= a + b.drop_last());
        law_extensions(a, b.drop_last(), link, target);
        assert(extensions(a + b, target) =~= extensions(a, target) + extensions(b, target));
    }
}

/// The maps that are looked at are all of those that a program with one of the ids uses,
/// in the order of the programs, and no others.
pub proof fn law_maps(a: Seq<ProgInfo>, b: Seq<ProgInfo>, prog: ProgInfo, ids: Seq<u32>)
    ensures
        maps_of(a + b, ids) == maps_of(a, ids) + maps_of(b, ids),
        (exists|i: int| 0 <= i < ids.len() && #[trigger] ids[i] == prog.id) ==> maps_of(
            seq![prog],
            ids,
        ) == prog.map_ids@,
        (forall|i: int| 0 <= i < ids.len() ==> #[trigger] ids[i] != prog.id) ==> maps_of(
            seq![prog],
            ids,
        ) == Seq::<u32>::empty(),
    decreases b.len(),
{
    assert(seq![prog].drop_last() =~= Seq::<ProgInfo>::empty());
    assert(maps_of(seq![prog].drop_last(), ids) =~= Seq::<u32>::empty());
    assert(Seq::<u32>::empty() + prog.map_ids@ =~= prog.map_ids@);
    if b.len() == 0 {
        assert(a + b =~= a);
        assert(maps_of(a, ids) + maps_of(b, ids) =~= maps_of(a, ids));
    } else {
        assert((a + b).drop_last() =~= a + b.drop_last());
        law_maps(a, b.drop_last(), prog, ids);
        assert(maps_of(a + b, ids) =~= maps_of(a, ids) + maps_of(b, ids));
    }
}

} // verus!
