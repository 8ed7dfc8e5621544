use crate::types::{MalError, MalResult, MalValue, Val, str_eq};
use vstd::prelude::*;

verus! {

/// One scope frame: its own symbol bindings plus the index of the next-outer
/// frame, if any. Frames never own each other; they live side by side in an
/// `EnvArena` and refer to one another by index, which preserves the sharing
/// semantics of a chain of scopes without shared ownership.
pub struct EnvData {
    pub bindings: Vec<(String, MalValue)>,
    pub outer: Option<usize>,
}

/// The arena holding every frame created so far. A frame's `outer` index
/// always points at an earlier slot, so chains of scopes are acyclic.
pub struct EnvArena {
    pub frames: Vec<EnvData>,
}

/// Model of one frame: a finite map from symbol name to model value, and the
/// outer link.
#[verifier::ext_equal]
pub struct FrameModel {
    pub binds: Map<Seq<char>, Val>,
    pub outer: Option<int>,
}

/// The map denoted by an association list; later entries win.
pub open spec fn assoc_model(s: Seq<(String, MalValue)>) -> Map<Seq<char>, Val>
    decreases s.len(),
{
    if s.len() == 0 {
        Map::empty()
    } else {
        assoc_model(s.drop_last()).insert(s.last().0@, s.last().1.model())
    }
}

impl EnvData {
    pub open spec fn model(self) -> FrameModel {
        FrameModel {
            binds: assoc_model(self.bindings@),
            outer: match self.outer {
                Some(o) => Some(o as int),
                None => None,
            },
        }
    }

    /// No name occurs twice in one frame; `set` overwrites in place.
    pub open spec fn names_unique(self) -> bool {
        forall|i: int, j: int|
            0 <= i < j < self.bindings@.len() ==> self.bindings@[i].0@ != self.bindings@[j].0@
    }
}

/// Every outer link points strictly earlier in the arena.
pub open spec fn arena_wf(m: Seq<FrameModel>) -> bool {
    forall|i: int|
        0 <= i < m.len() ==> (#[trigger] m[i].outer matches Some(o) ==> 0 <= o < i)
}

impl EnvArena {
    pub open spec fn model(self) -> Seq<FrameModel> {
        Seq::new(self.frames@.len(), |i: int| self.frames@[i].model())
    }

    /// Representation invariant: unique names per frame, acyclic outer links.
    pub open spec fn inv(self) -> bool {
        &&& forall|f: int|
            0 <= f < self.frames@.len() ==> (#[trigger] self.frames@[f]).names_unique()
        &&& arena_wf(self.model())
    }
}

/// The nearest frame, from `e` walking outward, whose own map binds `name`.
pub open spec fn env_find(m: Seq<FrameModel>, e: int, name: Seq<char>) -> Option<int>
    decreases e,
{
    if e < 0 || e >= m.len() {
        None
    } else if m[e].binds.contains_key(name) {
        Some(e)
    } else {
        match m[e].outer {
            Some(o) => if 0 <= o < e {
                env_find(m, o, name)
            } else {
                None
            },
            None => None,
        }
    }
}

/// The value `name` resolves to from frame `e`, through outward lookup.
pub open spec fn env_lookup(m: Seq<FrameModel>, e: int, name: Seq<char>) -> Option<Val> {
    match env_find(m, e, name) {
        Some(f) => Some(m[f].binds[name]),
        None => None,
    }
}

/// Message for a symbol no frame in the chain binds.
pub open spec fn not_found_text(name: Seq<char>) -> Seq<char> {
    "'"@ + name + "' is not found"@
}

/// Law: binding a name in a frame and then resolving that name from the same
/// frame yields exactly the bound value (write/read round trip).
pub proof fn lemma_set_then_get(m: Seq<FrameModel>, e: int, name: Seq<char>, v: Val)
    requires
        0 <= e < m.len(),
    ensures
        env_lookup(
            m.update(e, FrameModel { binds: m[e].binds.insert(name, v), outer: m[e].outer }),
            e,
            name,
        ) == Some(v),
{
    let m2 = m.update(e, FrameModel { binds: m[e].binds.insert(name, v), outer: m[e].outer });
    assert(m2[e].binds.contains_key(name));
    assert(env_find(m2, e, name) == Some(e));
}

/// Law: a frame that binds a name itself resolves it to its own value,
/// whatever any outer frame binds (shadowing).
pub proof fn lemma_shadowing(m: Seq<FrameModel>, e: int, name: Seq<char>)
    requires
        0 <= e < m.len(),
        m[e].binds.contains_key(name),
    ensures
        env_lookup(m, e, name) == Some(m[e].binds[name]),
{
}

/// Law: a frame that does not bind a name itself resolves it exactly as its
/// outer frame does (outward lookup).
pub proof fn lemma_outward_lookup(m: Seq<FrameModel>, child: int, parent: int, name: Seq<char>)
    requires
        arena_wf(m),
        0 <= child < m.len(),
        m[child].outer == Some(parent),
        !m[child].binds.contains_key(name),
    ensures
        env_lookup(m, child, name) == env_lookup(m, parent, name),
{
    assert(0 <= parent < child);
}

/// Allocates a frame with an empty mapping and the given outer link.
pub fn new(arena: &mut EnvArena, outer: Option<usize>) -> (e: usize)
    requires
        old(arena).inv(),
        outer matches Some(o) ==> (o as int) < old(arena).frames@.len(),
    ensures
        final(arena).inv(),
        e == old(arena).model().len(),
        final(arena).model() == old(arena).model().push(
            FrameModel {
                binds: Map::empty(),
                outer: match outer {
                    Some(o) => Some(o as int),
                    None => None,
                },
            },
        ),
{
    let e = arena.frames.len();
    arena.frames.push(EnvData { bindings: Vec::new(), outer });
    proof {
        let fm = FrameModel {
            binds: Map::empty(),
            outer: match outer {
                Some(o) => Some(o as int),
                None => None,
            },
        };
        assert(arena.frames@[e as int].model() =~= fm);
        assert(arena.model() =~= old(arena).model().push(fm));
    }
    e
}

/// Not a `Symbol`: the one input `set` rejects.
pub open spec fn set_err_text() -> Seq<char> {
    "cannot set as symbol"@
}

/// The frame model after `set` succeeds.
pub open spec fn frame_set(m: Seq<FrameModel>, e: int, name: Seq<char>, v: Val) -> Seq<FrameModel> {
    m.update(e, FrameModel { binds: m[e].binds.insert(name, v), outer: m[e].outer })
}

proof fn lemma_assoc_update(s: Seq<(String, MalValue)>, i: int, p: (String, MalValue))
    requires
        0 <= i < s.len(),
        s[i].0@ == p.0@,
        forall|a: int, b: int| 0 <= a < b < s.len() ==> s[a].0@ != s[b].0@,
    ensures
        assoc_model(s.update(i, p)) == assoc_model(s).insert(p.0@, p.1.model()),
    decreases s.len(),
{
    let s2 = s.update(i, p);
    if i == s.len() - 1 {
        assert(s2.drop_last() =~= s.drop_last());
        assert(assoc_model(s2) == assoc_model(s.drop_last()).insert(p.0@, p.1.model()));
        assert(assoc_model(s).insert(p.0@, p.1.model()) =~= assoc_model(s.drop_last()).insert(
            p.0@,
            p.1.model(),
        ));
    } else {
        assert(s2.drop_last() =~= s.drop_last().update(i, p));
        lemma_assoc_update(s.drop_last(), i, p);
        assert(s2.last() == s.last());
        assert(s.last().0@ != p.0@);
        assert(assoc_model(s2) == assoc_model(s.drop_last()).insert(p.0@, p.1.model()).insert(
            s.last().0@,
            s.last().1.model(),
        ));
        assert(assoc_model(s.drop_last()).insert(p.0@, p.1.model()).insert(
            s.last().0@,
            s.last().1.model(),
        ) =~= assoc_model(s.drop_last()).insert(s.last().0@, s.last().1.model()).insert(
            p.0@,
            p.1.model(),
        ));
    }
}

proof fn lemma_assoc_push(s: Seq<(String, MalValue)>, p: (String, MalValue))
    ensures
        assoc_model(s.push(p)) == assoc_model(s).insert(p.0@, p.1.model()),
{
    assert(s.push(p).drop_last() =~= s);
    assert(s.push(p).last() == p);
}

proof fn lemma_assoc_contains(s: Seq<(String, MalValue)>, name: Seq<char>)
    ensures
        assoc_model(s).contains_key(name) <==> exists|i: int|
            0 <= i < s.len() && #[trigger] s[i].0@ == name,
    decreases s.len(),
{
    if s.len() > 0 {
        lemma_assoc_contains(s.drop_last(), name);
        if s.last().0@ == name {
            assert(s[s.len() - 1].0@ == name);
        } else {
            if assoc_model(s).contains_key(name) {
                let i = choose|i: int| 0 <= i < s.drop_last().len() && #[trigger] s.drop_last()[i].0@ == name;
                assert(s[i].0@ == name);
            }
            if exists|i: int| 0 <= i < s.len() && #[trigger] s[i].0@ == name {
                let i = choose|i: int| 0 <= i < s.len() && #[trigger] s[i].0@ == name;
                assert(s.drop_last()[i].0@ == name);
            }
        }
    }
}

proof fn lemma_assoc_value(s: Seq<(String, MalValue)>, i: int)
    requires
        0 <= i < s.len(),
        forall|a: int, b: int| 0 <= a < b < s.len() ==> s[a].0@ != s[b].0@,
    ensures
        assoc_model(s).contains_key(s[i].0@),
        assoc_model(s)[s[i].0@] == s[i].1.model(),
    decreases s.len(),
{
    if i == s.len() - 1 {
    } else {
        lemma_assoc_value(s.drop_last(), i);
        assert(s.drop_last()[i] == s[i]);
        assert(s.last().0@ != s[i].0@);
    }
}

/// Inserts or overwrites `key`'s name in frame `e`'s own mapping (never an
/// outer frame) and returns the stored value; any other key kind is an error.
pub fn set(arena: &mut EnvArena, e: usize, key: MalValue, value: MalValue) -> (r: MalResult)
    requires
        old(arena).inv(),
        (e as int) < old(arena).frames@.len(),
    ensures
        final(arena).inv(),
        match key.model() {
            Val::Symbol(name) => {
                &&& final(arena).model() == frame_set(old(arena).model(), e as int, name, value.model())
                &&& r matches Ok(v) && v.model() == value.model()
            },
            _ => {
                &&& *final(arena) == *old(arena)
                &&& r matches Err(err) && err.text@ == set_err_text()
            },
        },
{
    match key {
        MalValue::Symbol(s) => {
            let ghost m0 = arena.model();
            let ghost bs0 = arena.frames@[e as int].bindings@;
            let stored = value.clone();
            let frame = &mut arena.frames[e];
            let n = frame.bindings.len();
            let mut i: usize = 0;
            let mut found = false;
            while i < n && !found
                invariant
                    frame.bindings@.len() == n,
                    i <= n,
                    !found ==> forall|k: int| 0 <= k < i ==> frame.bindings@[k].0@ != s@,
                    found ==> i < n && frame.bindings@[i as int].0@ == s@,
                    frame.bindings@ == bs0,
                decreases n - i + (if found { 0int } else { 1int }),
            {
                if str_eq(frame.bindings[i].0.as_str(), s.as_str()) {
                    found = true;
                } else {
                    i += 1;
                }
            }
            if found {
                frame.bindings.set(i, (s, stored));
                proof {
                    lemma_assoc_update(bs0, i as int, frame.bindings@[i as int]);
                }
            } else {
                frame.bindings.push((s, stored));
                proof {
                    lemma_assoc_push(bs0, frame.bindings@[n as int]);
                    assert forall|a: int, b: int|
                        0 <= a < b < frame.bindings@.len() implies frame.bindings@[a].0@
                        != frame.bindings@[b].0@ by {
                        if b == n as int {
                            assert(frame.bindings@[a].0@ != s@);
                        }
                    };
                }
            }
            proof {
                let m = arena.model();
                assert forall|f: int| 0 <= f < m.len() implies m[f] == frame_set(
                    m0,
                    e as int,
                    s@,
                    value.model(),
                )[f] by {
                    if f != e as int {
                        assert(arena.frames@[f] == old(arena).frames@[f]);
                    }
                };
                assert(m =~= frame_set(m0, e as int, s@, value.model()));
            }
            Ok(value)
        },
        _ => {
            let text = String::from_str("cannot set as symbol");
            Err(MalError { text })
        },
    }
}

/// Returns the nearest frame in the chain, starting at `e` and walking
/// outward, whose own mapping contains `key`.
pub fn find(arena: &EnvArena, e: usize, key: &str) -> (r: Option<usize>)
    requires
        arena.inv(),
        (e as int) < arena.frames@.len(),
    ensures
        match env_find(arena.model(), e as int, key@) {
            Some(f) => r matches Some(u) && u as int == f,
            None => r is None,
        },
    decreases e,
{
    let ghost bs = arena.frames@[e as int].bindings@;
    let n = arena.frames[e].bindings.len();
    let mut i: usize = 0;
    while i < n
        invariant
            arena.inv(),
            (e as int) < arena.frames@.len(),
            bs == arena.frames@[e as int].bindings@,
            n == bs.len(),
            i <= n,
            forall|k: int| 0 <= k < i ==> bs[k].0@ != key@,
        decreases n - i,
    {
        if str_eq(arena.frames[e].bindings[i].0.as_str(), key) {
            proof {
                lemma_assoc_contains(bs, key@);
                assert(arena.model()[e as int].binds == assoc_model(bs));
                assert(arena.model()[e as int].binds.contains_key(key@));
            }
            return Some(e);
        }
        i += 1;
    }
    proof {
        lemma_assoc_contains(bs, key@);
        assert(arena.model()[e as int].binds == assoc_model(bs));
        assert(!arena.model()[e as int].binds.contains_key(key@));
    }
    match arena.frames[e].outer {
        Some(o) => {
            proof {
                assert(arena.model()[e as int].outer == Some(o as int));
            }
            find(arena, o, key)
        },
        None => None,
    }
}

/// Resolves a `Symbol` key through the chain and returns a copy of the bound
/// value; an unbound symbol is a "not found" error, any other key kind an
/// "unexpected" error.
pub fn get(arena: &EnvArena, e: usize, key: &MalValue) -> (r: MalResult)
    requires
        arena.inv(),
        (e as int) < arena.frames@.len(),
    ensures
        match key.model() {
            Val::Symbol(name) => match env_lookup(arena.model(), e as int, name) {
                Some(v) => r matches Ok(got) && got.model() == v,
                None => r matches Err(err) && err.text@ == not_found_text(name),
            },
            _ => r matches Err(err) && err.text@ == "unexpected"@,
        },
{
    match key {
        MalValue::Symbol(s) => {
            match find(arena, e, s.as_str()) {
                Some(f) => {
                    let ghost fi = env_find(arena.model(), e as int, s@).unwrap();
                    proof {
                        lemma_env_find_contains(arena.model(), e as int, s@);
                        assert(arena.model().len() == arena.frames@.len());
                        assert(0 <= fi < arena.frames@.len());
                        assert(f as int == fi);
                    }
                    let ghost bs = arena.frames@[f as int].bindings@;
                    let n = arena.frames[f].bindings.len();
                    let mut i: usize = 0;
                    proof {
                        assert(arena.model()[f as int].binds == assoc_model(bs));
                        lemma_assoc_contains(bs, s@);
                    }
                    while i < n
                        invariant
                            arena.inv(),
                            key.model() == Val::Symbol(s@),
                            (f as int) < arena.frames@.len(),
                            fi == f as int,
                            fi == env_find(arena.model(), e as int, s@).unwrap(),
                            env_find(arena.model(), e as int, s@) is Some,
                            bs == arena.frames@[f as int].bindings@,
                            n == bs.len(),
                            i <= n,
                            forall|k: int| 0 <= k < i ==> bs[k].0@ != s@,
                            exists|k: int| 0 <= k < n && #[trigger] bs[k].0@ == s@,
                        decreases n - i,
                    {
                        if str_eq(arena.frames[f].bindings[i].0.as_str(), s.as_str()) {
                            proof {
                                lemma_assoc_value(bs, i as int);
                                assert(arena.model()[f as int].binds == assoc_model(bs));
                                assert(env_lookup(arena.model(), e as int, s@) == Some(
                                    assoc_model(bs)[s@],
                                ));
                                assert(assoc_model(bs)[s@] == bs[i as int].1.model());
                            }
                            return Ok(arena.frames[f].bindings[i].1.clone());
                        }
                        i += 1;
                    }
                    proof {
                        let k = choose|k: int| 0 <= k < n && #[trigger] bs[k].0@ == s@;
                        assert(false);
                    }
                    Err(MalError { text: String::from_str("unexpected") })
                },
                None => {
                    let text = String::from_str("'").concat(s.as_str()).concat(
                        "' is not found",
                    );
                    Err(MalError { text })
                },
            }
        },
        _ => Err(MalError { text: String::from_str("unexpected") }),
    }
}

/// A frame `env_find` returns always contains the name.
pub proof fn lemma_env_find_contains(m: Seq<FrameModel>, e: int, name: Seq<char>)
    ensures
        env_find(m, e, name) matches Some(f) ==> 0 <= f < m.len() && m[f].binds.contains_key(
            name,
        ),
    decreases e,
{
    if 0 <= e < m.len() && !m[e].binds.contains_key(name) {
        match m[e].outer {
            Some(o) => {
                if 0 <= o < e {
                    lemma_env_find_contains(m, o, name);
                }
            },
            None => {},
        }
    }
}

} // verus!
