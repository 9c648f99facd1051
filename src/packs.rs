//! Levels and level packs: each level of a pack, and each loaded pack, is
//! reached through a code.

use vstd::prelude::*;

use crate::codes::{assigned_codes, code_less, distinct_codes, lemma_lex_total, lemma_lex_transitive, lex_less, CodeAssignment};
use crate::text::{chars_of, string_of};

verus! {

/// The seed text for the codes that tell loaded packs apart.
pub const PACK_CODE_SEED: &'static str = "pack.json";

/// The message shown when a pack gives none of its own.
pub const DEFAULT_WIN_MESSAGE: &'static str = "Congratulations! You solved all puzzles in the level pack. Good job!";

/// One puzzle: its name, its description, and the script file that makes
/// its test cases.
pub struct Level {
    name: String,
    description: String,
    lua_file: String,
}

impl View for Level {
    type V = (Seq<char>, Seq<char>, Seq<char>);

    closed spec fn view(&self) -> (Seq<char>, Seq<char>, Seq<char>) {
        (self.name@, self.description@, self.lua_file@)
    }
}

impl Level {
    /// A level with the given name, description and script file.
    pub fn new(name: &str, description: &str, lua_file: &str) -> (r: Level)
        ensures
            r@ == (name@, description@, lua_file@),
    {
        Level { name: name.to_owned(), description: description.to_owned(), lua_file: lua_file.to_owned() }
    }

    pub fn name(&self) -> (r: &str)
        ensures
            r@ == self@.0,
    {
        self.name.as_str()
    }

    pub fn description(&self) -> (r: &str)
        ensures
            r@ == self@.1,
    {
        self.description.as_str()
    }

    pub fn lua_file(&self) -> (r: &str)
        ensures
            r@ == self@.2,
    {
        self.lua_file.as_str()
    }
}

/// Why a level pack could not be built.
#[derive(Debug, Clone, Copy, PartialEq, Eq, Structural)]
pub enum PackError {
    /// The pack holds no level.
    NoLevels,
    /// No free code was drawn for some position within the draw limit.
    CodesExhausted,
}

/// A pack of levels, in order, with a distinct code for each level.
pub struct LevelPack {
    id: String,
    name: String,
    version: String,
    description: String,
    levels: Vec<Level>,
    win_message: Option<String>,
    parent_folder: String,
    codes: CodeAssignment,
}

impl LevelPack {
    #[verifier::type_invariant]
    spec fn inv(&self) -> bool {
        &&& self.levels@.len() > 0
        &&& self.codes@.len() == self.levels@.len()
    }

    /// The levels, in order.
    pub closed spec fn spec_levels(&self) -> Seq<Level> {
        self.levels@
    }

    /// The level codes: code `i` names level `i`.
    pub closed spec fn spec_codes(&self) -> Seq<Seq<char>> {
        self.codes@
    }

    /// Builds a pack and assigns its level codes from a generator seeded
    /// with `id-version`. A pack without levels is refused.
    pub fn new(
        id: String,
        name: String,
        version: String,
        description: String,
        levels: Vec<Level>,
        win_message: Option<String>,
        parent_folder: String,
    ) -> (r: Result<LevelPack, PackError>)
        ensures
            r == Err::<LevelPack, PackError>(PackError::NoLevels) <==> levels@.len() == 0,
            levels@.len() == 1 ==> r is Ok,
            r == Err::<LevelPack, PackError>(PackError::CodesExhausted) <==> levels@.len() > 0 && assigned_codes(
                id@ + seq!['-'] + version@,
                levels@.len(),
            ) is None,
            match r {
                Ok(p) => {
                    &&& p.spec_levels() == levels@
                    &&& p.spec_codes().len() == levels@.len()
                    &&& distinct_codes(p.spec_codes())
                    &&& p@ == (id@, name@, version@, description@, win_message, parent_folder@)
                    &&& assigned_codes(id@ + seq!['-'] + version@, levels@.len()) == Some(p.spec_codes())
                },
                Err(e) => true,
            },
    {
        if levels.len() == 0 {
            return Err(PackError::NoLevels);
        }
        let mut seed = chars_of(id.as_str());
        seed.push('-');
        let v = chars_of(version.as_str());
        let ghost head = seed@;
        let mut i: usize = 0;
        while i < v.len()
            invariant
                i <= v@.len(),
                seed@ == head + v@.subrange(0, i as int),
            decreases v@.len() - i,
        {
            seed.push(v[i]);
            i = i + 1;
            assert(seed@ =~= head + v@.subrange(0, i as int));
        }
        assert(v@.subrange(0, v@.len() as int) =~= v@);
        assert(seed@ =~= id@ + seq!['-'] + version@);
        let seed = string_of(&seed);
        let codes = match CodeAssignment::assign(seed.as_str(), levels.len()) {
            Some(c) => c,
            None => {
                return Err(PackError::CodesExhausted);
            },
        };
        Ok(LevelPack { id, name, version, description, levels, win_message, parent_folder, codes })
    }

    pub fn id(&self) -> (r: &str)
        ensures
            r@ == self@.0,
    {
        self.id.as_str()
    }

    pub fn name(&self) -> (r: &str)
        ensures
            r@ == self@.1,
    {
        self.name.as_str()
    }

    pub fn version(&self) -> (r: &str)
        ensures
            r@ == self@.2,
    {
        self.version.as_str()
    }

    pub fn description(&self) -> (r: &str)
        ensures
            r@ == self@.3,
    {
        self.description.as_str()
    }

    /// The pack's own win message, or the default one.
    pub fn win_message(&self) -> (r: &str)
        ensures
            match self@.4 {
                Some(m) => r@ == m@,
                None => r@ == DEFAULT_WIN_MESSAGE@,
            },
    {
        match &self.win_message {
            Some(m) => m.as_str(),
            None => DEFAULT_WIN_MESSAGE,
        }
    }

    /// The folder the pack was loaded from.
    pub fn parent_folder(&self) -> (r: &str)
        ensures
            r@ == self@.5,
    {
        self.parent_folder.as_str()
    }

    /// The levels, in order.
    pub fn levels(&self) -> (r: &Vec<Level>)
        ensures
            r@ == self.spec_levels(),
    {
        &self.levels
    }

    /// The code of the first level.
    pub fn get_starting_code(&self) -> (r: &str)
        ensures
            r@ == self.spec_codes()[0],
            self.spec_codes().len() > 0,
    {
        proof {
            use_type_invariant(self);
        }
        self.codes.code_at(0)
    }

    /// The position and the level that `code` names, if any.
    pub fn get_level_from_code(&self, code: &str) -> (r: Option<(usize, &Level)>)
        ensures
            self.spec_codes().len() == self.spec_levels().len(),
            distinct_codes(self.spec_codes()),
            match r {
                Some(x) => x.0 < self.spec_levels().len() && self.spec_codes()[x.0 as int] == code@
                    && *x.1 == self.spec_levels()[x.0 as int],
                None => forall|i: int| 0 <= i < self.spec_codes().len() ==> self.spec_codes()[i] != code@,
            },
    {
        proof {
            use_type_invariant(self);
        }
        match self.codes.ordinal_of(code) {
            Some(i) => Some((i, &self.levels[i])),
            None => None,
        }
    }

    /// The code of the level after the one that `code` names; `None` for the
    /// last level or an unknown code.
    pub fn get_next_level_code(&self, code: &str) -> (r: Option<&str>)
        ensures
            match r {
                Some(c) => exists|i: int| 0 <= i && i + 1 < self.spec_codes().len() && #[trigger] self.spec_codes()[i]
                    == code@ && c@ == self.spec_codes()[i + 1],
                None => forall|i: int| 0 <= i && i + 1 < self.spec_codes().len() ==> self.spec_codes()[i] != code@,
            },
    {
        self.codes.next_code(code)
    }

    /// The code of level `i`.
    pub fn level_code(&self, i: usize) -> (r: &str)
        requires
            i < self.spec_codes().len(),
        ensures
            r@ == self.spec_codes()[i as int],
    {
        self.codes.code_at(i)
    }
}

impl View for LevelPack {
    type V = (Seq<char>, Seq<char>, Seq<char>, Seq<char>, Option<String>, Seq<char>);

    closed spec fn view(&self) -> Self::V {
        (self.id@, self.name@, self.version@, self.description@, self.win_message, self.parent_folder@)
    }
}

/// The loaded packs, each with a distinct code, listed in code order.
pub struct AllLevelPacks {
    level_packs: Vec<LevelPack>,
    codes: CodeAssignment,
    order: Vec<usize>,
}

/// Pack `i` holds a level with code `level_code`.
pub open spec fn pack_has_level(packs: Seq<LevelPack>, i: int, level_code: Seq<char>) -> bool {
    exists|j: int| 0 <= j < packs[i].spec_codes().len() && packs[i].spec_codes()[j] == level_code
}

/// `order` lists distinct positions below `n`, `n` of them.
pub open spec fn is_arrangement(order: Seq<usize>, n: nat) -> bool {
    &&& order.len() == n
    &&& forall|i: int| 0 <= i < order.len() ==> order[i] < n
    &&& forall|i: int, j: int| 0 <= i < j < order.len() ==> order[i] != order[j]
}

/// Listing positions by `order` puts their codes in increasing code order.
pub open spec fn sorted_by_code(codes: Seq<Seq<char>>, order: Seq<usize>) -> bool {
    forall|i: int, j: int| 0 <= i < j < order.len() ==> lex_less(codes[order[i] as int], codes[order[j] as int])
}

/// The positions `0..n`, arranged so that their codes come in code order.
fn order_by_code(codes: &CodeAssignment, n: usize) -> (r: Vec<usize>)
    requires
        codes@.len() == n,
        distinct_codes(codes@),
    ensures
        is_arrangement(r@, n as nat),
        sorted_by_code(codes@, r@),
{
    let ghost cs = codes@;
    let mut order: Vec<usize> = Vec::new();
    let mut x: usize = 0;
    while x < n
        invariant
            x <= n,
            cs == codes@,
            cs.len() == n,
            distinct_codes(cs),
            is_arrangement(order@, x as nat),
            sorted_by_code(cs, order@),
        decreases n - x,
    {
        let mut p: usize = 0;
        while p < order.len() && !code_less(codes.code_at(x), codes.code_at(order[p]))
            invariant
                x < n,
                cs == codes@,
                cs.len() == n,
                is_arrangement(order@, x as nat),
                p <= order@.len(),
                forall|q: int| 0 <= q < p ==> !lex_less(cs[x as int], cs[order@[q] as int]),
            decreases order@.len() - p,
        {
            p = p + 1;
        }
        let ghost old_order = order@;
        order.insert(p, x);
        proof {
            assert forall|i: int, j: int| 0 <= i < j < order@.len() implies lex_less(
                cs[order@[i] as int],
                cs[order@[j] as int],
            ) by {
                if j < p {
                    assert(order@[i] == old_order[i] && order@[j] == old_order[j]);
                } else if j == p {
                    let e = old_order[i];
                    assert(order@[i] == e);
                    assert(cs[e as int] != cs[x as int]);
                    lemma_lex_total(cs[e as int], cs[x as int]);
                } else if i > p {
                    assert(order@[i] == old_order[i - 1] && order@[j] == old_order[j - 1]);
                } else if i == p {
                    assert(order@[j] == old_order[j - 1]);
                    if j - 1 > p {
                        lemma_lex_transitive(cs[x as int], cs[old_order[p as int] as int], cs[old_order[j - 1] as int]);
                    }
                } else {
                    assert(order@[i] == old_order[i] && order@[j] == old_order[j - 1]);
                }
            }
        }
        x = x + 1;
    }
    order
}

impl AllLevelPacks {
    #[verifier::type_invariant]
    spec fn inv(&self) -> bool {
        &&& self.codes@.len() == self.level_packs@.len()
        &&& is_arrangement(self.order@, self.level_packs@.len())
        &&& sorted_by_code(self.codes@, self.order@)
    }

    /// Where each listed pack stood among the packs given at load.
    pub closed spec fn spec_order(&self) -> Seq<usize> {
        self.order@
    }

    /// The packs, in code order.
    pub closed spec fn spec_packs(&self) -> Seq<LevelPack> {
        self.order@.map_values(|i: usize| self.level_packs@[i as int])
    }

    /// The pack codes, in code order: code `k` names pack `k`.
    pub closed spec fn spec_codes(&self) -> Seq<Seq<char>> {
        self.order@.map_values(|i: usize| self.codes@[i as int])
    }

    /// No packs at all.
    pub fn empty() -> (r: AllLevelPacks)
        ensures
            r.spec_packs().len() == 0,
    {
        AllLevelPacks { level_packs: Vec::new(), codes: CodeAssignment::empty(), order: Vec::new() }
    }

    /// Gives each pack a code drawn from a generator seeded with
    /// `PACK_CODE_SEED`, the first pack first, and lists the packs in code
    /// order; `None` when the draws run out.
    pub fn from_packs(packs: Vec<LevelPack>) -> (r: Option<AllLevelPacks>)
        ensures
            match r {
                Some(a) => {
                    &&& is_arrangement(a.spec_order(), packs@.len())
                    &&& a.spec_packs().len() == packs@.len()
                    &&& forall|k: int| 0 <= k < packs@.len() ==> a.spec_packs()[k] == packs@[a.spec_order()[k] as int]
                    &&& a.spec_codes().len() == packs@.len()
                    &&& distinct_codes(a.spec_codes())
                    &&& forall|i: int, j: int| 0 <= i < j < packs@.len() ==> lex_less(a.spec_codes()[i], a.spec_codes()[j])
                    &&& match assigned_codes(PACK_CODE_SEED@, packs@.len()) {
                        Some(cs) => forall|k: int| 0 <= k < packs@.len() ==> a.spec_codes()[k] == cs[a.spec_order()[k] as int],
                        None => false,
                    }
                },
                None => assigned_codes(PACK_CODE_SEED@, packs@.len()) is None,
            },
            packs@.len() <= 1 ==> r is Some,
    {
        let n = packs.len();
        match CodeAssignment::assign(PACK_CODE_SEED, n) {
            Some(codes) => {
                let order = order_by_code(&codes, n);
                let r = AllLevelPacks { level_packs: packs, codes, order };
                proof {
                    let cs = r.spec_codes();
                    assert forall|i: int, j: int| 0 <= i < j < cs.len() implies cs[i] != cs[j] by {
                        assert(r.order@[i] != r.order@[j]);
                    }
                }
                Some(r)
            },
            None => None,
        }
    }

    /// The number of packs.
    pub fn len(&self) -> (r: usize)
        ensures
            r == self.spec_packs().len(),
            r == self.spec_codes().len(),
            distinct_codes(self.spec_codes()),
    {
        proof {
            use_type_invariant(self);
        }
        let _ = self.codes.len();
        proof {
            let cs = self.spec_codes();
            assert forall|i: int, j: int| 0 <= i < j < cs.len() implies cs[i] != cs[j] by {
                assert(self.order@[i] != self.order@[j]);
            }
        }
        self.order.len()
    }

    /// The `i`-th pack in code order, and its code.
    pub fn pack_at(&self, i: usize) -> (r: (&str, &LevelPack))
        requires
            i < self.spec_packs().len(),
        ensures
            r.0@ == self.spec_codes()[i as int],
            *r.1 == self.spec_packs()[i as int],
    {
        proof {
            use_type_invariant(self);
        }
        let j = self.order[i];
        (self.codes.code_at(j), &self.level_packs[j])
    }

    /// The pack that `code` names, if any.
    pub fn get_level_pack(&self, code: &str) -> (r: Option<&LevelPack>)
        ensures
            match r {
                Some(p) => exists|i: int| 0 <= i < self.spec_packs().len() && #[trigger] self.spec_codes()[i] == code@
                    && *p == self.spec_packs()[i],
                None => forall|i: int| 0 <= i < self.spec_codes().len() ==> self.spec_codes()[i] != code@,
            },
    {
        let n = self.len();
        let mut k: usize = 0;
        while k < n
            invariant
                k <= n,
                n == self.spec_packs().len(),
                n == self.spec_codes().len(),
                forall|i: int| 0 <= i < k ==> self.spec_codes()[i] != code@,
            decreases n - k,
        {
            let (c, p) = self.pack_at(k);
            if chars_eq(c, code) {
                return Some(p);
            }
            k = k + 1;
        }
        None
    }

    /// `entry` is a pack code, a level number (from 1) and the level itself,
    /// of a level with code `level_code`, in the pack that `pack_code` names
    /// when given.
    pub open spec fn names_level(&self, entry: (&str, usize, &Level), level_code: Seq<char>, pack_code: Option<&str>) -> bool {
        exists|i: int| {
            &&& 0 <= i < self.spec_packs().len()
            &&& #[trigger] self.spec_codes()[i] == entry.0@
            &&& 1 <= entry.1 <= self.spec_packs()[i].spec_codes().len()
            &&& self.spec_packs()[i].spec_codes()[entry.1 - 1] == level_code
            &&& self.spec_packs()[i].spec_codes().len() == self.spec_packs()[i].spec_levels().len()
            &&& *entry.2 == self.spec_packs()[i].spec_levels()[entry.1 - 1]
            &&& match pack_code {
                Some(c) => c@ == entry.0@,
                None => true,
            }
        }
    }

    /// The levels that `level_code` names, each as a pack code, a level
    /// number counted from 1 and the level: in the pack that `pack_code` names when it is given,
    /// else in every pack, in code order.
    pub fn get_level(&self, level_code: &str, pack_code: Option<&str>) -> (r: Vec<(&str, usize, &Level)>)
        ensures
            forall|k: int| 0 <= k < r@.len() ==> self.names_level(#[trigger] r@[k], level_code@, pack_code),
            forall|k1: int, k2: int| 0 <= k1 < k2 < r@.len() ==> lex_less(r@[k1].0@, r@[k2].0@),
            forall|i: int| 0 <= i < self.spec_packs().len() && pack_has_level(self.spec_packs(), i, level_code@)
                && match pack_code {
                    Some(c) => self.spec_codes()[i] == c@,
                    None => true,
                } ==> exists|k: int| 0 <= k < r@.len() && #[trigger] r@[k].0@ == self.spec_codes()[i],
    {
        proof {
            use_type_invariant(self);
        }
        let mut out: Vec<(&str, usize, &Level)> = Vec::new();
        let n = self.level_packs.len();
        assert forall|a: int, b: int| 0 <= a < b < n implies lex_less(self.spec_codes()[a], self.spec_codes()[b]) by {
            assert(lex_less(self.codes@[self.order@[a] as int], self.codes@[self.order@[b] as int]));
        }
        let mut i: usize = 0;
        while i < n
            invariant
                i <= n,
                n == self.spec_packs().len(),
                n == self.spec_codes().len(),
                forall|k: int| 0 <= k < out@.len() ==> self.names_level(#[trigger] out@[k], level_code@, pack_code),
                forall|k1: int, k2: int| 0 <= k1 < k2 < out@.len() ==> lex_less(out@[k1].0@, out@[k2].0@),
                forall|k: int| #![trigger out@[k]] 0 <= k < out@.len() ==> exists|x: int| 0 <= x < i && #[trigger] self.spec_codes()[x] == out@[k].0@,
                forall|a: int, b: int| 0 <= a < b < n ==> lex_less(self.spec_codes()[a], self.spec_codes()[b]),
                forall|j: int| 0 <= j < i && pack_has_level(self.spec_packs(), j, level_code@)
                    && match pack_code {
                        Some(c) => self.spec_codes()[j] == c@,
                        None => true,
                    } ==> exists|k: int| 0 <= k < out@.len() && #[trigger] out@[k].0@ == self.spec_codes()[j],
            decreases n - i,
        {
            let (code, pack) = self.pack_at(i);
            let wanted = match pack_code {
                Some(c) => chars_eq(code, c),
                None => true,
            };
            if wanted {
                let count = pack.levels().len();
                match pack.get_level_from_code(level_code) {
                    Some((num, level)) => {
                        let ghost before = out@;
                        out.push((code, num + 1, level));
                        proof {
                            assert(out@[before.len() as int].0@ == self.spec_codes()[i as int]);
                            assert forall|k1: int, k2: int| 0 <= k1 < k2 < out@.len() implies lex_less(out@[k1].0@, out@[k2].0@) by {
                                if k2 == before.len() {
                                    let x = choose|x: int| 0 <= x < i && #[trigger] self.spec_codes()[x] == before[k1].0@;
                                    assert(out@[k1] == before[k1]);
                                } else {
                                    assert(out@[k1] == before[k1] && out@[k2] == before[k2]);
                                }
                            }
                            assert forall|k: int| #![trigger out@[k]] 0 <= k < out@.len() implies exists|x: int| 0 <= x < i + 1 && #[trigger] self.spec_codes()[x] == out@[k].0@ by {
                                if k < before.len() {
                                    assert(out@[k] == before[k]);
                                    let x = choose|x: int| 0 <= x < i && #[trigger] self.spec_codes()[x] == before[k].0@;
                                } else {
                                    assert(self.spec_codes()[i as int] == out@[k].0@);
                                }
                            }
                            assert forall|j: int| 0 <= j <= i && pack_has_level(self.spec_packs(), j, level_code@)
                                && match pack_code {
                                    Some(c) => self.spec_codes()[j] == c@,
                                    None => true,
                                } implies exists|k: int| 0 <= k < out@.len() && #[trigger] out@[k].0@ == self.spec_codes()[j] by {
                                if j < i {
                                    let k = choose|k: int| 0 <= k < before.len() && #[trigger] before[k].0@ == self.spec_codes()[j];
                                    assert(out@[k] == before[k]);
                                } else {
                                    assert(out@[before.len() as int].0@ == self.spec_codes()[j]);
                                }
                            }
                            assert forall|k: int| 0 <= k < out@.len() implies self.names_level(#[trigger] out@[k], level_code@, pack_code) by {
                                if k < before.len() {
                                    assert(out@[k] == before[k]);
                                }
                            }
                        }
                    },
                    None => {
                        assert(!pack_has_level(self.spec_packs(), i as int, level_code@));
                    },
                }
            }
            i = i + 1;
        }
        out
    }
}

/// Whether `a` and `b` hold the same characters.
fn chars_eq(a: &str, b: &str) -> (r: bool)
    ensures
        r == (a@ == b@),
{
    let x = chars_of(a);
    let y = chars_of(b);
    if x.len() != y.len() {
        assert(x@.len() != y@.len());
        return false;
    }
    let mut i: usize = 0;
    while i < x.len()
        invariant
            x@.len() == y@.len(),
            x@ == a@,
            y@ == b@,
            i <= x@.len(),
            forall|j: int| 0 <= j < i ==> x@[j] == y@[j],
        decreases x@.len() - i,
    {
        if x[i] != y[i] {
            assert(x@[i as int] != y@[i as int]);
            return false;
        }
        i = i + 1;
    }
    assert(x@ =~= y@);
    true
}

} // verus!
