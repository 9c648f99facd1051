//! Short human-typeable codes, drawn from a seeded generator, each naming one
//! ordinal position (a level in a pack, or a pack among the loaded ones).

use rand::seq::SliceRandom;
use rand_pcg::Lcg128Xsl64;
use rand_seeder::Seeder;
use vstd::prelude::*;

use crate::text::{chars_of, string_of};

verus! {

/// The PCG-64 generator of `rand_pcg` (`Pcg64`), carried through as an
/// opaque value.
#[verifier::external_type_specification]
#[verifier::external_body]
pub struct ExLcg128Xsl64(Lcg128Xsl64);

/// The number of characters in a code.
pub const CODE_LENGTH: usize = 6;

/// How many draws one position may take before assignment gives up; far
/// more than any realistic scope needs, since a draw collides only with the
/// few codes assigned before it.
pub const MAX_DRAWS_PER_CODE: usize = 1000;

/// The characters codes are made of: consonants without the easily confused
/// letters, and the digits.
pub open spec fn code_alphabet() -> Seq<char> {
    seq![
        'B', 'C', 'D', 'F', 'G', 'H', 'J', 'K', 'L', 'M', 'N', 'P', 'Q', 'R', 'S', 'T', 'V',
        'W', 'X', 'Y', 'Z', '1', '2', '3', '4', '5', '6', '7', '8', '9', '0',
    ]
}

/// `c` is a code: `CODE_LENGTH` characters of the alphabet.
pub open spec fn is_code(c: Seq<char>) -> bool {
    c.len() == CODE_LENGTH && forall|i: int| 0 <= i < c.len() ==> code_alphabet().contains(c[i])
}

/// Codes that can name distinct positions: each a code, no two equal.
pub open spec fn distinct_codes(codes: Seq<Seq<char>>) -> bool {
    &&& forall|i: int| 0 <= i < codes.len() ==> is_code(#[trigger] codes[i])
    &&& forall|i: int, j: int| 0 <= i < j < codes.len() ==> codes[i] != codes[j]
}

/// The seed expander of `rand_seeder`, carried through as an opaque value.
#[verifier::external_type_specification]
#[verifier::external_body]
pub struct ExSeeder(Seeder);

/// The index that `rand`'s slice choice picks at draw `k` (counted from 0)
/// of a PCG-64 generator seeded through `rand_seeder` with the text `seed`,
/// when every draw picks from a slice of `width` elements. The seeding hash
/// has fixed keys, so this depends on its arguments alone.
pub uninterp spec fn drawn_index(seed: Seq<char>, width: nat, k: nat) -> int;

/// A seed expander built from a seed text, not yet used.
pub struct SeedSource {
    seeder: Seeder,
    seed: Ghost<Seq<char>>,
}

impl SeedSource {
    /// The seed text.
    pub closed spec fn seed(&self) -> Seq<char> {
        self.seed@
    }
}

/// The draws of one generator: which seed text it came from, how many draws
/// it has made, and how wide the slices it picks from are.
pub struct CodeDraws {
    rng: Lcg128Xsl64,
    seed: Ghost<Seq<char>>,
    count: Ghost<nat>,
    width: Ghost<nat>,
}

impl CodeDraws {
    /// The seed text of the generator.
    pub closed spec fn seed(&self) -> Seq<char> {
        self.seed@
    }

    /// The number of draws made so far.
    pub closed spec fn count(&self) -> nat {
        self.count@
    }

    /// The width of the slices drawn from so far.
    pub closed spec fn width(&self) -> nat {
        self.width@
    }
}

/// Relies on `rand_seeder::Seeder::from`: a seed expander built from the
/// hash of the seed text.
#[verifier::external_body]
fn seeder_from(seed: &str) -> (r: SeedSource)
    ensures
        r.seed() == seed@,
{
    SeedSource { seeder: Seeder::from(seed), seed: Ghost(seed@) }
}

/// Relies on `rand_seeder::Seeder::make_rng`: the PCG-64 generator seeded
/// from a fresh expander's first output, before any draw.
#[verifier::external_body]
fn make_generator(source: SeedSource) -> (r: CodeDraws)
    ensures
        r.seed() == source.seed(),
        r.count() == 0,
{
    let mut seeder = source.seeder;
    CodeDraws { rng: seeder.make_rng(), seed: source.seed, count: Ghost(0), width: Ghost(0) }
}

/// Relies on `rand::seq::SliceRandom::choose`: on a non-empty slice, the
/// element at the index the generator's next draw gives, which lies in the
/// slice.
#[verifier::external_body]
fn choose_char(chars: &Vec<char>, draws: &mut CodeDraws) -> (r: Option<char>)
    requires
        chars@.len() > 0,
        old(draws).count() == 0 || old(draws).width() == chars@.len(),
    ensures
        ({
            let i = drawn_index(old(draws).seed(), chars@.len(), old(draws).count());
            0 <= i < chars@.len() && r == Some(chars@[i])
        }),
        final(draws).seed() == old(draws).seed(),
        final(draws).count() == old(draws).count() + 1,
        final(draws).width() == chars@.len(),
{
    let r = chars.as_slice().choose(&mut draws.rng).copied();
    draws.count = Ghost(draws.count@ + 1);
    draws.width = Ghost(chars@.len());
    r
}

/// The code made of the draws `k .. k + CODE_LENGTH` of the generator seeded
/// with `seed`.
pub open spec fn code_at_draw(seed: Seq<char>, k: nat) -> Seq<char> {
    Seq::new(
        CODE_LENGTH as nat,
        |i: int| code_alphabet()[drawn_index(seed, code_alphabet().len(), (k + i) as nat)],
    )
}

/// The codes for `n` positions, given the codes already placed and the draws
/// already made: each position takes the next drawn code that no earlier
/// position has; `None` when `MAX_DRAWS_PER_CODE` draws in a row for one
/// position are all taken. `tries` counts the taken draws for the current
/// position.
pub open spec fn place_codes(seed: Seq<char>, n: nat, codes: Seq<Seq<char>>, k: nat, tries: nat) -> Option<
    Seq<Seq<char>>,
>
    decreases n - codes.len(), MAX_DRAWS_PER_CODE - tries,
{
    if codes.len() >= n {
        Some(codes)
    } else if tries >= MAX_DRAWS_PER_CODE {
        None
    } else {
        let c = code_at_draw(seed, k);
        if codes.contains(c) {
            place_codes(seed, n, codes, (k + CODE_LENGTH) as nat, (tries + 1) as nat)
        } else {
            place_codes(seed, n, codes.push(c), (k + CODE_LENGTH) as nat, 0)
        }
    }
}

/// The codes assigned to `n` positions from the generator seeded with
/// `seed`, or `None` when assignment gives up.
pub open spec fn assigned_codes(seed: Seq<char>, n: nat) -> Option<Seq<Seq<char>>> {
    place_codes(seed, n, Seq::empty(), 0, 0)
}

/// A single position always gets the first code drawn.
pub proof fn lemma_one_position(seed: Seq<char>)
    ensures
        assigned_codes(seed, 1) == Some(seq![code_at_draw(seed, 0)]),
{
    let c = code_at_draw(seed, 0);
    assert(!Seq::<Seq<char>>::empty().contains(c));
    assert(Seq::<Seq<char>>::empty().push(c) == seq![c]);
    assert(place_codes(seed, 1, seq![c], CODE_LENGTH as nat, 0) == Some(seq![c]));
}

/// The code alphabet, in order.
pub fn alphabet() -> (r: Vec<char>)
    ensures
        r@ == code_alphabet(),
{
    let r = vec![
        'B', 'C', 'D', 'F', 'G', 'H', 'J', 'K', 'L', 'M', 'N', 'P', 'Q', 'R', 'S', 'T', 'V',
        'W', 'X', 'Y', 'Z', '1', '2', '3', '4', '5', '6', '7', '8', '9', '0',
    ];
    assert(r@ =~= code_alphabet());
    r
}

/// Draws one code: the next `CODE_LENGTH` draws of the generator.
fn generate_single_code(draws: &mut CodeDraws, chars: &Vec<char>) -> (r: Vec<char>)
    requires
        chars@ == code_alphabet(),
        old(draws).count() == 0 || old(draws).width() == chars@.len(),
    ensures
        r@ == code_at_draw(old(draws).seed(), old(draws).count()),
        is_code(r@),
        final(draws).seed() == old(draws).seed(),
        final(draws).count() == old(draws).count() + CODE_LENGTH,
        final(draws).width() == chars@.len(),
{
    let ghost start = draws.count();
    let ghost seed = draws.seed();
    let mut code: Vec<char> = Vec::new();
    let mut i: usize = 0;
    while i < CODE_LENGTH
        invariant
            i <= CODE_LENGTH,
            chars@ == code_alphabet(),
            code@.len() == i,
            draws.seed() == seed,
            draws.count() == start + i,
            draws.count() == 0 || draws.width() == chars@.len(),
            i > 0 ==> draws.width() == chars@.len(),
            forall|j: int| 0 <= j < i ==> code@[j] == code_at_draw(seed, start)[j],
            forall|j: int| 0 <= j < i ==> code_alphabet().contains(code@[j]),
        decreases CODE_LENGTH - i,
    {
        let c = match choose_char(chars, draws) {
            Some(c) => c,
            None => '0',
        };
        code.push(c);
        i = i + 1;
    }
    assert(code@ =~= code_at_draw(seed, start));
    code
}

/// Lexicographic order on character sequences, by code point: the order in
/// which codes are listed.
pub open spec fn lex_less(a: Seq<char>, b: Seq<char>) -> bool
    decreases a.len(),
{
    if b.len() == 0 {
        false
    } else if a.len() == 0 {
        true
    } else if a[0] != b[0] {
        (a[0] as int) < (b[0] as int)
    } else {
        lex_less(a.drop_first(), b.drop_first())
    }
}

/// Of two different sequences, one comes first.
pub proof fn lemma_lex_total(a: Seq<char>, b: Seq<char>)
    requires
        a != b,
    ensures
        lex_less(a, b) || lex_less(b, a),
    decreases a.len(),
{
    if a.len() == 0 && b.len() == 0 {
        assert(a =~= b);
    }
    if a.len() > 0 && b.len() > 0 && a[0] == b[0] {
        if a.drop_first() == b.drop_first() {
            assert(a =~= seq![a[0]] + a.drop_first());
            assert(b =~= seq![b[0]] + b.drop_first());
        }
        lemma_lex_total(a.drop_first(), b.drop_first());
    }
}

/// The order is transitive.
pub proof fn lemma_lex_transitive(a: Seq<char>, b: Seq<char>, c: Seq<char>)
    requires
        lex_less(a, b),
        lex_less(b, c),
    ensures
        lex_less(a, c),
    decreases a.len(),
{
    if a.len() > 0 && a[0] == b[0] && b[0] == c[0] {
        lemma_lex_transitive(a.drop_first(), b.drop_first(), c.drop_first());
    }
}

/// No sequence comes before itself.
pub proof fn lemma_lex_irreflexive(a: Seq<char>)
    ensures
        !lex_less(a, a),
    decreases a.len(),
{
    if a.len() > 0 {
        lemma_lex_irreflexive(a.drop_first());
    }
}

/// Whether `a` comes before `b` in code order.
pub fn code_less(a: &str, b: &str) -> (r: bool)
    ensures
        r == lex_less(a@, b@),
{
    let x = chars_of(a);
    let y = chars_of(b);
    let mut i: usize = 0;
    proof {
        assert(x@.subrange(0, x@.len() as int) =~= x@);
        assert(y@.subrange(0, y@.len() as int) =~= y@);
    }
    while i < x.len() && i < y.len() && x[i] == y[i]
        invariant
            i <= x@.len(),
            i <= y@.len(),
            lex_less(x@, y@) == lex_less(x@.subrange(i as int, x@.len() as int), y@.subrange(i as int, y@.len() as int)),
        decreases x@.len() - i,
    {
        proof {
            let xs = x@.subrange(i as int, x@.len() as int);
            let ys = y@.subrange(i as int, y@.len() as int);
            assert(xs.drop_first() =~= x@.subrange(i + 1, x@.len() as int));
            assert(ys.drop_first() =~= y@.subrange(i + 1, y@.len() as int));
        }
        i = i + 1;
    }
    if i == y.len() {
        false
    } else if i == x.len() {
        true
    } else {
        x[i] < y[i]
    }
}

/// The position of `code` among `codes`, if it is there.
fn find_code(codes: &Vec<String>, code: &String) -> (r: Option<usize>)
    ensures
        match r {
            Some(i) => i < codes@.len() && codes@[i as int]@ == code@,
            None => forall|i: int| 0 <= i < codes@.len() ==> codes@[i]@ != code@,
        },
{
    let mut i: usize = 0;
    while i < codes.len()
        invariant
            i <= codes@.len(),
            forall|j: int| 0 <= j < i ==> codes@[j]@ != code@,
        decreases codes@.len() - i,
    {
        if codes[i] == *code {
            return Some(i);
        }
        i = i + 1;
    }
    None
}

/// Distinct codes for the ordinal positions `0..n` of one scope: code `i`
/// names position `i`.
pub struct CodeAssignment {
    codes: Vec<String>,
}

impl View for CodeAssignment {
    type V = Seq<Seq<char>>;

    closed spec fn view(&self) -> Seq<Seq<char>> {
        self.codes@.map_values(|s: String| s@)
    }
}

impl CodeAssignment {
    #[verifier::type_invariant]
    spec fn inv(&self) -> bool {
        distinct_codes(self@)
    }

    /// Gives `code` to the next position unless another position already
    /// has it; returns whether it was taken.
    pub fn offer(&mut self, code: String) -> (r: bool)
        requires
            is_code(code@),
        ensures
            r == !old(self)@.contains(code@),
            final(self)@ == if r { old(self)@.push(code@) } else { old(self)@ },
    {
        proof {
            use_type_invariant(&*self);
        }
        match find_code(&self.codes, &code) {
            Some(i) => {
                assert(self@[i as int] == code@);
                false
            },
            None => {
                let ghost before = self@;
                let mut codes: Vec<String> = Vec::new();
                let mut i: usize = 0;
                while i < self.codes.len()
                    invariant
                        i <= self.codes@.len(),
                        before == self@,
                        codes@.len() == i,
                        forall|j: int| 0 <= j < i ==> codes@[j]@ == before[j],
                    decreases self.codes@.len() - i,
                {
                    let c = self.codes[i].clone();
                    assert(c@ == before[i as int]);
                    codes.push(c);
                    i = i + 1;
                }
                codes.push(code);
                proof {
                    assert(codes@.map_values(|s: String| s@) =~= before.push(code@));
                    assert(!before.contains(code@));
                }
                *self = CodeAssignment { codes };
                true
            },
        }
    }

    /// Assigns codes to `n` positions, drawing from a generator seeded with
    /// `seed` and drawing again whenever a code is already taken: exactly the
    /// codes `assigned_codes(seed@, n)` describes. Gives up, with `None`, when
    /// `MAX_DRAWS_PER_CODE` draws in a row for one position are all taken.
    pub fn assign(seed: &str, n: usize) -> (r: Option<CodeAssignment>)
        ensures
            match r {
                Some(a) => assigned_codes(seed@, n as nat) == Some(a@) && a@.len() == n && distinct_codes(a@),
                None => assigned_codes(seed@, n as nat) is None,
            },
            n <= 1 ==> r is Some,
    {
        proof {
            lemma_one_position(seed@);
        }
        let chars = alphabet();
        let mut draws = make_generator(seeder_from(seed));
        let ghost target = assigned_codes(seed@, n as nat);
        let mut a = CodeAssignment { codes: Vec::new() };
        assert(a@ =~= Seq::<Seq<char>>::empty());
        let mut index: usize = 0;
        while index < n
            invariant
                index <= n,
                chars@ == code_alphabet(),
                a@.len() == index,
                draws.seed() == seed@,
                draws.count() == 0 || draws.width() == chars@.len(),
                place_codes(seed@, n as nat, a@, draws.count(), 0) == target,
                target == assigned_codes(seed@, n as nat),
            decreases n - index,
        {
            let mut placed = false;
            let mut tries: usize = 0;
            while !placed
                invariant
                    index < n,
                    chars@ == code_alphabet(),
                    tries <= MAX_DRAWS_PER_CODE,
                    draws.seed() == seed@,
                    draws.count() == 0 || draws.width() == chars@.len(),
                    target == assigned_codes(seed@, n as nat),
                    placed ==> a@.len() == index + 1 && place_codes(seed@, n as nat, a@, draws.count(), 0) == target,
                    !placed ==> a@.len() == index && place_codes(seed@, n as nat, a@, draws.count(), tries as nat) == target,
                decreases MAX_DRAWS_PER_CODE - tries + if placed { 0int } else { 1int },
            {
                if tries == MAX_DRAWS_PER_CODE {
                    proof {
                        assert(place_codes(seed@, n as nat, a@, draws.count(), tries as nat) is None);
                        lemma_one_position(seed@);
                    }
                    return None;
                }
                let code = string_of(&generate_single_code(&mut draws, &chars));
                placed = a.offer(code);
                if !placed {
                    tries = tries + 1;
                }
            }
            index = index + 1;
        }
        proof {
            use_type_invariant(&a);
        }
        Some(a)
    }

    /// An assignment for no positions.
    pub fn empty() -> (r: CodeAssignment)
        ensures
            r@.len() == 0,
    {
        let r = CodeAssignment { codes: Vec::new() };
        assert(r@ =~= Seq::<Seq<char>>::empty());
        r
    }

    /// The number of positions.
    pub fn len(&self) -> (r: usize)
        ensures
            r == self@.len(),
            distinct_codes(self@),
    {
        proof {
            use_type_invariant(self);
        }
        self.codes.len()
    }

    /// The code of position `i`.
    pub fn code_at(&self, i: usize) -> (r: &str)
        requires
            i < self@.len(),
        ensures
            r@ == self@[i as int],
    {
        self.codes[i].as_str()
    }

    /// The position that `code` names, if any.
    pub fn ordinal_of(&self, code: &str) -> (r: Option<usize>)
        ensures
            distinct_codes(self@),
            match r {
                Some(i) => i < self@.len() && self@[i as int] == code@,
                None => forall|i: int| 0 <= i < self@.len() ==> self@[i] != code@,
            },
    {
        proof {
            use_type_invariant(self);
        }
        find_code(&self.codes, &code.to_owned())
    }

    /// The code of the position after the one that `code` names; `None` for
    /// the last position or an unknown code.
    pub fn next_code(&self, code: &str) -> (r: Option<&str>)
        ensures
            match r {
                Some(c) => exists|i: int| 0 <= i && i + 1 < self@.len() && #[trigger] self@[i] == code@ && c@ == self@[i + 1],
                None => forall|i: int| 0 <= i && i + 1 < self@.len() ==> self@[i] != code@,
            },
    {
        proof {
            use_type_invariant(self);
        }
        let n = self.codes.len();
        match self.ordinal_of(code) {
            Some(i) => {
                if i + 1 < n {
                    Some(self.codes[i + 1].as_str())
                } else {
                    None
                }
            },
            None => None,
        }
    }
}

} // verus!
