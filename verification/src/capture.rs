use vstd::prelude::*;
use crate::board::{
    Battle, Cell, Grid, Owner, Pos, at, battles_in_bounds, chain_battles, chain_battles_toward, count_owned,
    flat, lemma_chain_in_bounds, lemma_concat_in_bounds, lemma_opening_in_bounds, lemma_pos_of,
    lemma_unflipped_set, neighbour, opening_battles, opening_battles_toward, owned_by, owned_upto, placed,
    pos_in_bounds, pos_of, put, resolve, unflipped, well_shaped,
};
use crate::card::{Card, Direction, dir_at};

verus! {

/// Each cell of `g` is the cell of `g0`, or the card of `g0`'s cell now
/// owned by `o`.
pub open spec fn flipped_only_to(g0: Grid, g: Grid, o: Owner) -> bool {
    forall|x: Pos|
        #![trigger at(g, x)]
        pos_in_bounds(x) ==> at(g, x) == at(g0, x) || (at(g0, x) matches Cell::Occupied { card, .. }
            && at(g, x) == Cell::Occupied { card, owner: o })
}

/// No card of another owner next to `p` points back at `p`: a card placed
/// there by `owner` meets no counterattack.
pub open spec fn no_counterattack(g: Grid, p: Pos, owner: Owner) -> bool {
    forall|d: Direction|
        #![trigger neighbour(p, d)]
        neighbour(p, d) matches Some(q) ==> !(at(g, q) matches Cell::Occupied { card: k, owner: o } && o != owner
            && k.points(d.reversed()))
}

/// The grid `g` reached while resolving battles from `g0`: the positions
/// marked in `f` hold their card of `g0` flipped to `o`, the others are as
/// in `g0`.
spec fn flips_tracked(g0: Grid, g: Grid, f: Seq<bool>, o: Owner) -> bool {
    &&& f.len() == 16
    &&& well_shaped(g)
    &&& forall|x: Pos|
        #![trigger at(g, x)]
        pos_in_bounds(x) ==> if f[flat(x)] {
            at(g0, x) matches Cell::Occupied { card, .. } && at(g, x) == Cell::Occupied { card, owner: o }
        } else {
            at(g, x) == at(g0, x)
        }
}

/// Every battle of `q` from entry `i` on is on the board and attacks from a
/// card of owner `o`.
spec fn attackers_owned_by(g: Grid, q: Seq<Battle>, i: nat, o: Owner) -> bool {
    &&& battles_in_bounds(q)
    &&& forall|j: int| #![trigger q[j]] i <= j < q.len() ==> owned_by(at(g, q[j].0), o)
}

proof fn lemma_at_put(g: Grid, d: Pos, v: Cell)
    requires
        well_shaped(g),
        pos_in_bounds(d),
    ensures
        well_shaped(put(g, d.0 as int, d.1 as int, v)),
        at(put(g, d.0 as int, d.1 as int, v), d) == v,
        forall|x: Pos|
            pos_in_bounds(x) && x != d ==> #[trigger] at(put(g, d.0 as int, d.1 as int, v), x) == at(g, x),
{
    let h = put(g, d.0 as int, d.1 as int, v);
    assert forall|r: int| 0 <= r < 4 implies #[trigger] h[r].len() == 4 by {
        if r == d.0 {
        } else {
            assert(h[r] == g[r]);
        }
    }
}

/// Every chain battle that a card at `p` starts attacks from `p`.
proof fn lemma_chain_attacker(g: Grid, p: Pos, card: Card, owner: Owner, k: nat)
    ensures
        forall|j: int| 0 <= j < chain_battles(g, p, card, owner, k).len() ==> (#[trigger] chain_battles(g, p, card, owner, k)[j]).0 == p,
    decreases k,
{
    if k > 0 {
        lemma_chain_attacker(g, p, card, owner, (k - 1) as nat);
        let a = chain_battles(g, p, card, owner, (k - 1) as nat);
        let b = chain_battles_toward(g, p, card, owner, dir_at(k - 1));
        assert forall|j: int| 0 <= j < (a + b).len() implies (#[trigger] (a + b)[j]).0 == p by {
            if j < a.len() {
                assert((a + b)[j] == a[j]);
            } else {
                assert((a + b)[j] == b[j - a.len()]);
            }
        }
    }
}

/// Without counterattacks, every opening battle of a card placed at `p`
/// attacks from `p`.
proof fn lemma_opening_attacker(g: Grid, p: Pos, card: Card, owner: Owner, k: nat)
    requires
        no_counterattack(g, p, owner),
    ensures
        forall|j: int| 0 <= j < opening_battles(g, p, card, owner, k).len() ==> (#[trigger] opening_battles(g, p, card, owner, k)[j]).0 == p,
    decreases k,
{
    if k > 0 {
        lemma_opening_attacker(g, p, card, owner, (k - 1) as nat);
        let d = dir_at(k - 1);
        let a = opening_battles(g, p, card, owner, (k - 1) as nat);
        let b = opening_battles_toward(g, p, card, owner, d);
        assert forall|j: int| 0 <= j < b.len() implies (#[trigger] b[j]).0 == p by {}
        assert forall|j: int| 0 <= j < (a + b).len() implies (#[trigger] (a + b)[j]).0 == p by {
            if j < a.len() {
                assert((a + b)[j] == a[j]);
            } else {
                assert((a + b)[j] == b[j - a.len()]);
            }
        }
    }
}

/// A position on the board is known by its row-major index.
proof fn lemma_flat_distinct(x: Pos, y: Pos)
    requires
        pos_in_bounds(x),
        pos_in_bounds(y),
    ensures
        x != y ==> flat(x) != flat(y),
        0 <= flat(x) < 16,
{
}

/// A battle won against an unflipped card of another owner flips it to `o`,
/// and the tracking of flips carries over to the grown queue.
proof fn lemma_flip_step(g0: Grid, g: Grid, q: Seq<Battle>, i: nat, f: Seq<bool>, o: Owner, dcard: Card, downer: Owner)
    requires
        flips_tracked(g0, g, f, o),
        attackers_owned_by(g, q, i, o),
        i < q.len(),
        at(g, q[i as int].1) == (Cell::Occupied { card: dcard, owner: downer }),
        downer != o,
        !f[flat(q[i as int].1)],
    ensures
        ({
            let d = q[i as int].1;
            let g2 = put(g, d.0 as int, d.1 as int, Cell::Occupied { card: dcard, owner: o });
            &&& flips_tracked(g0, g2, f.update(flat(d), true), o)
            &&& attackers_owned_by(g2, q + chain_battles(g2, d, dcard, o, 8), i + 1, o)
        }),
{
    let d = q[i as int].1;
    assert(pos_in_bounds(q[i as int].0) && pos_in_bounds(d));
    let g2 = put(g, d.0 as int, d.1 as int, Cell::Occupied { card: dcard, owner: o });
    let f2 = f.update(flat(d), true);
    let c = chain_battles(g2, d, dcard, o, 8);
    lemma_at_put(g, d, Cell::Occupied { card: dcard, owner: o });
    lemma_chain_in_bounds(g2, d, dcard, o, 8);
    lemma_concat_in_bounds(q, c);
    lemma_chain_attacker(g2, d, dcard, o, 8);
    lemma_flat_distinct(d, d);
    assert forall|x: Pos| #![trigger at(g2, x)] pos_in_bounds(x) implies if f2[flat(x)] {
        at(g0, x) matches Cell::Occupied { card, .. } && at(g2, x) == Cell::Occupied { card, owner: o }
    } else {
        at(g2, x) == at(g0, x)
    } by {
        if x != d {
            lemma_flat_distinct(x, d);
        }
    }
    assert forall|j: int| #![trigger (q + c)[j]] i + 1 <= j < (q + c).len() implies owned_by(at(g2, (q + c)[j].0), o) by {
        if j < q.len() {
            assert((q + c)[j] == q[j]);
            assert(owned_by(at(g, q[j].0), o));
            assert(pos_in_bounds(q[j].0));
            assert(q[j].0 != d);
        } else {
            assert((q + c)[j] == c[j - q.len()]);
        }
    }
}

/// Flips tracked from `g0` are also tracked from the grid they led to.
proof fn lemma_track_from_here(g0: Grid, g: Grid, f: Seq<bool>, o: Owner)
    requires
        flips_tracked(g0, g, f, o),
    ensures
        flips_tracked(g, g, f, o),
{
    assert forall|x: Pos| #![trigger at(g, x)] pos_in_bounds(x) implies if f[flat(x)] {
        at(g, x) matches Cell::Occupied { card, .. } && at(g, x) == Cell::Occupied { card, owner: o }
    } else {
        at(g, x) == at(g, x)
    } by {}
}

/// When every attacker of the queue belongs to `o`, resolving it only flips
/// cards to `o`.
proof fn lemma_resolve_flips_only_to(g0: Grid, g: Grid, q: Seq<Battle>, i: nat, f: Seq<bool>, o: Owner)
    requires
        flips_tracked(g0, g, f, o),
        attackers_owned_by(g, q, i, o),
    ensures
        flipped_only_to(g0, resolve(g, q, i, f), o),
    decreases unflipped(f), q.len() - i,
{
    if i >= q.len() {
        assert forall|x: Pos| #![trigger at(g, x)] pos_in_bounds(x) implies at(g, x) == at(g0, x) || (at(g0, x) matches Cell::Occupied { card, .. }
            && at(g, x) == Cell::Occupied { card, owner: o }) by {}
    } else {
        let a = q[i as int].0;
        let d = q[i as int].1;
        assert(pos_in_bounds(a) && pos_in_bounds(d));
        match (at(g, a), at(g, d)) {
            (
                Cell::Occupied { card: acard, owner: aowner },
                Cell::Occupied { card: dcard, owner: downer },
            ) => if aowner != downer && acard.beats(dcard) && !f[flat(d)] {
                assert(aowner == o);
                lemma_unflipped_set(f, flat(d));
                lemma_flip_step(g0, g, q, i, f, o, dcard, downer);
                let g2 = put(g, d.0 as int, d.1 as int, Cell::Occupied { card: dcard, owner: aowner });
                lemma_resolve_flips_only_to(g0, g2, q + chain_battles(g2, d, dcard, aowner, 8), i + 1, f.update(flat(d), true), o);
            } else {
                lemma_resolve_flips_only_to(g0, g, q, i + 1, f, o);
            },
            _ => lemma_resolve_flips_only_to(g0, g, q, i + 1, f, o),
        }
    }
}

/// When every attacker of the queue belongs to `o`, the battle at entry `jb`
/// flips its defender to `o` if `o`'s attacker there beats it.
proof fn lemma_resolve_wins_battle(
    g0: Grid,
    g: Grid,
    q: Seq<Battle>,
    i: nat,
    f: Seq<bool>,
    o: Owner,
    jb: int,
    acard: Card,
    k: Card,
    ko: Owner,
)
    requires
        flips_tracked(g0, g, f, o),
        attackers_owned_by(g, q, i, o),
        i <= jb < q.len(),
        at(g0, q[jb].0) == (Cell::Occupied { card: acard, owner: o }),
        at(g0, q[jb].1) == (Cell::Occupied { card: k, owner: ko }),
        ko != o,
        acard.beats(k),
    ensures
        at(resolve(g, q, i, f), q[jb].1) == (Cell::Occupied { card: k, owner: o }),
    decreases unflipped(f), q.len() - i,
{
    let a = q[i as int].0;
    let d = q[i as int].1;
    assert(pos_in_bounds(a) && pos_in_bounds(d));
    assert(pos_in_bounds(q[jb].0) && pos_in_bounds(q[jb].1));
    if i == jb {
        if f[flat(d)] {
            lemma_track_from_here(g0, g, f, o);
            lemma_resolve_flips_only_to(g, g, q, i + 1, f, o);
        } else {
            lemma_unflipped_set(f, flat(d));
            lemma_flip_step(g0, g, q, i, f, o, k, ko);
            let g2 = put(g, d.0 as int, d.1 as int, Cell::Occupied { card: k, owner: o });
            let f2 = f.update(flat(d), true);
            let q2 = q + chain_battles(g2, d, k, o, 8);
            lemma_track_from_here(g0, g2, f2, o);
            lemma_resolve_flips_only_to(g2, g2, q2, i + 1, f2, o);
        }
    } else {
        match (at(g, a), at(g, d)) {
            (
                Cell::Occupied { card: ac, owner: aowner },
                Cell::Occupied { card: dcard, owner: downer },
            ) => if aowner != downer && ac.beats(dcard) && !f[flat(d)] {
                assert(aowner == o);
                lemma_unflipped_set(f, flat(d));
                lemma_flip_step(g0, g, q, i, f, o, dcard, downer);
                let g2 = put(g, d.0 as int, d.1 as int, Cell::Occupied { card: dcard, owner: o });
                let q2 = q + chain_battles(g2, d, dcard, o, 8);
                assert(q2[jb] == q[jb]);
                lemma_resolve_wins_battle(g0, g2, q2, i + 1, f.update(flat(d), true), o, jb, acard, k, ko);
            } else {
                lemma_resolve_wins_battle(g0, g, q, i + 1, f, o, jb, acard, k, ko);
            },
            _ => lemma_resolve_wins_battle(g0, g, q, i + 1, f, o, jb, acard, k, ko),
        }
    }
}

proof fn lemma_owned_put(g: Grid, p: Pos, x: Cell, o: Owner, n: nat)
    requires
        well_shaped(g),
        pos_in_bounds(p),
        at(g, p) is Empty,
        n <= 16,
    ensures
        owned_upto(put(g, p.0 as int, p.1 as int, x), o, n) == owned_upto(g, o, n) + if flat(p) < n && owned_by(
            x,
            o,
        ) {
            1nat
        } else {
            0nat
        },
    decreases n,
{
    if n > 0 {
        lemma_owned_put(g, p, x, o, (n - 1) as nat);
        lemma_at_put(g, p, x);
        lemma_pos_of(n - 1);
        let y = pos_of(n - 1);
    }
}

/// A grid in which every card of `o` in `g` is still `o`'s holds at least as
/// many cards of `o` among the first `n` positions.
proof fn lemma_owned_upto_mono(g: Grid, h: Grid, o: Owner, n: nat)
    requires
        n <= 16,
        forall|x: Pos| #![trigger at(h, x)] pos_in_bounds(x) && owned_by(at(g, x), o) ==> owned_by(at(h, x), o),
    ensures
        owned_upto(g, o, n) <= owned_upto(h, o, n),
    decreases n,
{
    if n > 0 {
        lemma_owned_upto_mono(g, h, o, (n - 1) as nat);
        lemma_pos_of(n - 1);
    }
}

proof fn lemma_opening_queue_tracked(g: Grid, p: Pos, card: Card, owner: Owner)
    requires
        well_shaped(g),
        pos_in_bounds(p),
        at(g, p) is Empty,
        no_counterattack(g, p, owner),
    ensures
        ({
            let g1 = put(g, p.0 as int, p.1 as int, Cell::Occupied { card, owner });
            &&& flips_tracked(g1, g1, Seq::new(16, |i: int| false), owner)
            &&& attackers_owned_by(g1, opening_battles(g1, p, card, owner, 8), 0, owner)
        }),
{
    let g1 = put(g, p.0 as int, p.1 as int, Cell::Occupied { card, owner });
    lemma_at_put(g, p, Cell::Occupied { card, owner });
    assert forall|d: Direction| #![trigger neighbour(p, d)] (neighbour(p, d) matches Some(q) ==> !(at(g1, q) matches Cell::Occupied { card: k, owner: o } && o != owner
        && k.points(d.reversed()))) by {
        if let Some(q) = neighbour(p, d) {
            assert(q != p);
            assert(at(g1, q) == at(g, q));
        }
    }
    lemma_opening_in_bounds(g1, p, card, owner, 8);
    lemma_opening_attacker(g1, p, card, owner, 8);
    let q0 = opening_battles(g1, p, card, owner, 8);
    assert forall|j: int| #![trigger q0[j]] 0 <= j < q0.len() implies owned_by(at(g1, q0[j].0), owner) by {
        assert(q0[j].0 == p);
    }
}

/// When no card of the other player next to `p` points back at it, placing
/// a card there only wins cards: the placed card is the placer's, every card
/// the placer held is still the placer's, the placer holds at least one card
/// more than before and the other player no more than before.
pub proof fn lemma_place_without_counterattack(g: Grid, p: Pos, card: Card, owner: Owner)
    requires
        well_shaped(g),
        pos_in_bounds(p),
        at(g, p) is Empty,
        no_counterattack(g, p, owner),
    ensures
        at(placed(g, p, card, owner), p) == (Cell::Occupied { card, owner }),
        forall|x: Pos|
            pos_in_bounds(x) && owned_by(at(g, x), owner) ==> owned_by(#[trigger] at(placed(g, p, card, owner), x), owner),
        count_owned(placed(g, p, card, owner), owner) >= count_owned(g, owner) + 1,
        forall|o: Owner| o != owner ==> #[trigger] count_owned(placed(g, p, card, owner), o) <= count_owned(g, o),
{
    let x0 = Cell::Occupied { card, owner };
    let g1 = put(g, p.0 as int, p.1 as int, x0);
    let h = placed(g, p, card, owner);
    lemma_at_put(g, p, x0);
    lemma_opening_queue_tracked(g, p, card, owner);
    lemma_resolve_flips_only_to(g1, g1, opening_battles(g1, p, card, owner, 8), 0, Seq::new(16, |i: int| false), owner);
    assert(flipped_only_to(g1, h, owner));
    assert forall|x: Pos| pos_in_bounds(x) && owned_by(at(g, x), owner) implies owned_by(#[trigger] at(h, x), owner) by {
        assert(x != p);
        assert(at(g1, x) == at(g, x));
    }
    lemma_owned_put(g, p, x0, owner, 16);
    lemma_flat_distinct(p, p);
    lemma_owned_upto_mono(g1, h, owner, 16);
    assert forall|o: Owner| o != owner implies #[trigger] count_owned(h, o) <= count_owned(g, o) by {
        lemma_owned_put(g, p, x0, o, 16);
        assert forall|x: Pos| #![trigger at(g1, x)] pos_in_bounds(x) && owned_by(at(h, x), o) implies owned_by(at(g1, x), o) by {}
        lemma_owned_upto_mono(h, g1, o, 16);
    }
}

/// Each direction is one of the eight of `Direction::ALL`.
proof fn lemma_dir_index(d: Direction)
    ensures
        exists|m: int| 0 <= m < 8 && #[trigger] dir_at(m) == d,
{
    match d {
        Direction::N => assert(dir_at(0) == d),
        Direction::NE => assert(dir_at(1) == d),
        Direction::E => assert(dir_at(2) == d),
        Direction::SE => assert(dir_at(3) == d),
        Direction::S => assert(dir_at(4) == d),
        Direction::SW => assert(dir_at(5) == d),
        Direction::W => assert(dir_at(6) == d),
        Direction::NW => assert(dir_at(7) == d),
    }
}

/// The opening battles towards direction `dir_at(m)` are among the opening
/// battles towards the first `k` directions, for `m < k`.
proof fn lemma_opening_includes(g: Grid, p: Pos, card: Card, owner: Owner, k: nat, m: int, b: Battle)
    requires
        0 <= m < k,
        opening_battles_toward(g, p, card, owner, dir_at(m)).contains(b),
    ensures
        opening_battles(g, p, card, owner, k).contains(b),
    decreases k,
{
    let prev = opening_battles(g, p, card, owner, (k - 1) as nat);
    let last = opening_battles_toward(g, p, card, owner, dir_at(k - 1));
    if m == k - 1 {
        let j = choose|j: int| 0 <= j < last.len() && last[j] == b;
        assert((prev + last)[prev.len() + j] == b);
    } else {
        lemma_opening_includes(g, p, card, owner, (k - 1) as nat, m, b);
        let j = choose|j: int| 0 <= j < prev.len() && prev[j] == b;
        assert((prev + last)[j] == b);
    }
}

/// An attack that no card answers wins when the attack digit reaches the
/// defence chosen by the attacker's type: with no counterattack on `p`, a
/// card placed there that points in direction `d` at a card of the other
/// player that it beats flips that card to the placer.
pub proof fn lemma_unanswered_attack_flips(g: Grid, p: Pos, card: Card, owner: Owner, d: Direction)
    requires
        well_shaped(g),
        pos_in_bounds(p),
        at(g, p) is Empty,
        no_counterattack(g, p, owner),
        card.points(d),
        neighbour(p, d) matches Some(q) && at(g, q) matches Cell::Occupied { card: k, owner: o } && o != owner
            && card.beats(k),
    ensures
        neighbour(p, d) matches Some(q) && at(g, q) matches Cell::Occupied { card: k, .. } && at(
            placed(g, p, card, owner),
            q,
        ) == (Cell::Occupied { card: k, owner }),
{
    let q = neighbour(p, d)->0;
    let (k, o) = match at(g, q) {
        Cell::Occupied { card: k, owner: o } => (k, o),
        _ => (card, owner),
    };
    let x0 = Cell::Occupied { card, owner };
    let g1 = put(g, p.0 as int, p.1 as int, x0);
    lemma_at_put(g, p, x0);
    assert(q != p);
    assert(at(g1, q) == at(g, q));
    lemma_opening_queue_tracked(g, p, card, owner);
    lemma_dir_index(d);
    let m = choose|m: int| 0 <= m < 8 && #[trigger] dir_at(m) == d;
    let toward = opening_battles_toward(g1, p, card, owner, d);
    assert(toward[0] == (p, q));
    lemma_opening_includes(g1, p, card, owner, 8, m, (p, q));
    let q0 = opening_battles(g1, p, card, owner, 8);
    let jb = choose|jb: int| 0 <= jb < q0.len() && q0[jb] == (p, q);
    lemma_resolve_wins_battle(g1, g1, q0, 0, Seq::new(16, |i: int| false), owner, jb, card, k, o);
}

/// Resolving battles never touches a position already flipped in this
/// placement.
proof fn lemma_flipped_stays(g: Grid, q: Seq<Battle>, i: nat, f: Seq<bool>, x: Pos)
    requires
        well_shaped(g),
        f.len() == 16,
        pos_in_bounds(x),
        f[flat(x)],
    ensures
        at(resolve(g, q, i, f), x) == at(g, x),
    decreases unflipped(f), q.len() - i,
{
    if i < q.len() {
        let a = q[i as int].0;
        let d = q[i as int].1;
        if pos_in_bounds(a) && pos_in_bounds(d) {
            match (at(g, a), at(g, d)) {
                (
                    Cell::Occupied { card: acard, owner: aowner },
                    Cell::Occupied { card: dcard, owner: downer },
                ) => if aowner != downer && acard.beats(dcard) && !f[flat(d)] {
                    let g2 = put(g, d.0 as int, d.1 as int, Cell::Occupied { card: dcard, owner: aowner });
                    lemma_unflipped_set(f, flat(d));
                    lemma_at_put(g, d, Cell::Occupied { card: dcard, owner: aowner });
                    lemma_flat_distinct(x, d);
                    assert(x != d);
                    lemma_flipped_stays(g2, q + chain_battles(g2, d, dcard, aowner, 8), i + 1, f.update(flat(d), true), x);
                } else {
                    lemma_flipped_stays(g, q, i + 1, f, x);
                },
                _ => lemma_flipped_stays(g, q, i + 1, f, x),
            }
        } else {
            lemma_flipped_stays(g, q, i + 1, f, x);
        }
    }
}

/// The card at `qa` strikes back at `p` and wins, once its battle comes up:
/// until then the only battles are between `p` and `qa`, and `p`'s attack
/// on `qa`, if any, fails.
proof fn lemma_counter_flips(
    g: Grid,
    q: Seq<Battle>,
    i: nat,
    f: Seq<bool>,
    p: Pos,
    qa: Pos,
    card: Card,
    owner: Owner,
    k: Card,
    o: Owner,
)
    requires
        well_shaped(g),
        f.len() == 16,
        pos_in_bounds(p),
        pos_in_bounds(qa),
        p != qa,
        !f[flat(p)],
        at(g, p) == (Cell::Occupied { card, owner }),
        at(g, qa) == (Cell::Occupied { card: k, owner: o }),
        o != owner,
        k.beats(card),
        forall|j: int| #![trigger q[j]] i <= j < q.len() ==> q[j] == (qa, p) || (q[j] == (p, qa) && !card.beats(k)),
        exists|j: int| #![trigger q[j]] i <= j < q.len() && q[j] == (qa, p),
    ensures
        at(resolve(g, q, i, f), p) == (Cell::Occupied { card, owner: o }),
    decreases q.len() - i,
{
    let j0 = choose|j: int| #![trigger q[j]] i <= j < q.len() && q[j] == (qa, p);
    assert(q[i as int] == q[i as int]);
    lemma_flat_distinct(p, qa);
    if q[i as int] == (qa, p) {
        let g2 = put(g, p.0 as int, p.1 as int, Cell::Occupied { card, owner: o });
        lemma_unflipped_set(f, flat(p));
        lemma_at_put(g, p, Cell::Occupied { card, owner: o });
        lemma_flipped_stays(g2, q + chain_battles(g2, p, card, o, 8), i + 1, f.update(flat(p), true), p);
    } else {
        assert(j0 != i);
        assert(q[j0] == (qa, p));
        lemma_counter_flips(g, q, i + 1, f, p, qa, card, owner, k, o);
    }
}

/// The opening battles of a card placed at `p` whose only neighbour of
/// another owner is `qa`, in direction `d`: each is `qa` striking back at
/// `p`, or `p` attacking `qa` without winning.
proof fn lemma_opening_only_against(
    g1: Grid,
    p: Pos,
    card: Card,
    owner: Owner,
    kk: nat,
    d: Direction,
    qa: Pos,
    k: Card,
)
    requires
        well_shaped(g1),
        neighbour(p, d) == Some(qa),
        at(g1, qa) matches Cell::Occupied { card: c, .. } && c == k,
        !(card.points(d) && card.beats(k)),
        forall|e: Direction|
            #![trigger neighbour(p, e)]
            e != d ==> (neighbour(p, e) matches Some(x) ==> !(at(g1, x) matches Cell::Occupied { owner: o2, .. }
                && o2 != owner)),
    ensures
        forall|j: int|
            #![trigger opening_battles(g1, p, card, owner, kk)[j]]
            0 <= j < opening_battles(g1, p, card, owner, kk).len() ==> opening_battles(g1, p, card, owner, kk)[j]
                == (qa, p) || (opening_battles(g1, p, card, owner, kk)[j] == (p, qa) && !card.beats(k)),
    decreases kk,
{
    if kk > 0 {
        lemma_opening_only_against(g1, p, card, owner, (kk - 1) as nat, d, qa, k);
        let e = dir_at(kk - 1);
        let a = opening_battles(g1, p, card, owner, (kk - 1) as nat);
        let b = opening_battles_toward(g1, p, card, owner, e);
        assert(neighbour(p, e) == neighbour(p, e));
        assert forall|j: int| 0 <= j < b.len() implies #[trigger] b[j] == (qa, p) || (b[j] == (p, qa) && !card.beats(k)) by {}
        assert forall|j: int| #![trigger (a + b)[j]] 0 <= j < (a + b).len() implies (a + b)[j] == (qa, p) || ((a + b)[j] == (p, qa)
            && !card.beats(k)) by {
            if j < a.len() {
                assert((a + b)[j] == a[j]);
            } else {
                assert((a + b)[j] == b[j - a.len()]);
            }
        }
    }
}

/// Counterattack: a card of another owner next to `p`, in direction `d`,
/// that points back at `p` and beats the placed card takes it, whatever
/// arrows the placed card has, when it is the only card of another owner
/// next to `p` and the placed card does not win against it first.
pub proof fn lemma_counterattack_takes_the_placed_card(g: Grid, p: Pos, card: Card, owner: Owner, d: Direction)
    requires
        well_shaped(g),
        pos_in_bounds(p),
        at(g, p) is Empty,
        neighbour(p, d) matches Some(q) && at(g, q) matches Cell::Occupied { card: k, owner: o } && o != owner
            && k.points(d.reversed()) && k.beats(card) && !(card.points(d) && card.beats(k)),
        forall|e: Direction|
            #![trigger neighbour(p, e)]
            e != d ==> (neighbour(p, e) matches Some(x) ==> !(at(g, x) matches Cell::Occupied { owner: o2, .. }
                && o2 != owner)),
    ensures
        neighbour(p, d) matches Some(q) && at(g, q) matches Cell::Occupied { owner: o, .. } && at(
            placed(g, p, card, owner),
            p,
        ) == (Cell::Occupied { card, owner: o }),
{
    let qa = neighbour(p, d)->0;
    let (k, o) = match at(g, qa) {
        Cell::Occupied { card: k, owner: o } => (k, o),
        _ => (card, owner),
    };
    let x0 = Cell::Occupied { card, owner };
    let g1 = put(g, p.0 as int, p.1 as int, x0);
    lemma_at_put(g, p, x0);
    assert(qa != p);
    assert(pos_in_bounds(qa));
    assert(at(g1, qa) == at(g, qa));
    assert forall|e: Direction|
        #![trigger neighbour(p, e)]
        (e != d ==> (neighbour(p, e) matches Some(x) ==> !(at(g1, x) matches Cell::Occupied { owner: o2, .. }
            && o2 != owner))) by {
        if let Some(x) = neighbour(p, e) {
            assert(x != p);
            assert(at(g1, x) == at(g, x));
        }
    }
    lemma_opening_only_against(g1, p, card, owner, 8, d, qa, k);
    lemma_dir_index(d);
    let m = choose|m: int| 0 <= m < 8 && #[trigger] dir_at(m) == d;
    let toward = opening_battles_toward(g1, p, card, owner, d);
    assert(toward[toward.len() - 1] == (qa, p));
    lemma_opening_includes(g1, p, card, owner, 8, m, (qa, p));
    let q0 = opening_battles(g1, p, card, owner, 8);
    let j0 = choose|j: int| 0 <= j < q0.len() && q0[j] == (qa, p);
    assert(q0[j0] == (qa, p));
    let f0 = Seq::new(16, |i: int| false);
    lemma_flat_distinct(p, qa);
    lemma_counter_flips(g1, q0, 0, f0, p, qa, card, owner, k, o);
}

/// The card at `x` in `h` has no attack left to win: it points at no card
/// of an owner other than `o` that it beats.
pub open spec fn no_winning_attack_left(h: Grid, o: Owner, x: Pos) -> bool {
    at(h, x) matches Cell::Occupied { card: c, .. } && forall|e: Direction|
        #![trigger neighbour(x, e)]
        c.points(e) ==> (neighbour(x, e) matches Some(y) ==> !(at(h, y) matches Cell::Occupied { card: cy, owner: oy }
            && oy != o && c.beats(cy)))
}

/// Every attack that the card `c` at `x` could still win in `g` is queued
/// from entry `i` on.
spec fn attacks_queued(g: Grid, qs: Seq<Battle>, i: nat, o: Owner, x: Pos, c: Card) -> bool {
    forall|e: Direction|
        #![trigger neighbour(x, e)]
        c.points(e) ==> (neighbour(x, e) matches Some(y) ==> ((at(g, y) matches Cell::Occupied { card: cy, owner: oy }
            && oy != o && c.beats(cy)) ==> exists|j: int| #![trigger qs[j]] i <= j < qs.len() && qs[j] == (x, y)))
}

/// The placed card at `p0` and every card flipped so far have their
/// winnable attacks queued.
spec fn chains_tracked(g0: Grid, g: Grid, qs: Seq<Battle>, i: nat, f: Seq<bool>, o: Owner, p0: Pos) -> bool {
    forall|x: Pos|
        #![trigger at(g0, x)]
        pos_in_bounds(x) && (x == p0 || f[flat(x)]) ==> (at(g0, x) matches Cell::Occupied { card: c, .. }
            && attacks_queued(g, qs, i, o, x, c))
}

/// Where a card flipped to `owner` at `p` points at a card of another owner,
/// its chain battles hold that attack.
proof fn lemma_chain_includes(g: Grid, p: Pos, card: Card, owner: Owner, k: nat, m: int, y: Pos)
    requires
        0 <= m < k,
        card.points(dir_at(m)),
        neighbour(p, dir_at(m)) == Some(y),
        at(g, y) matches Cell::Occupied { owner: oy, .. } && oy != owner,
    ensures
        chain_battles(g, p, card, owner, k).contains((p, y)),
    decreases k,
{
    let prev = chain_battles(g, p, card, owner, (k - 1) as nat);
    let last = chain_battles_toward(g, p, card, owner, dir_at(k - 1));
    if m == k - 1 {
        assert(last[0] == (p, y));
        assert((prev + last)[prev.len() as int] == (p, y));
    } else {
        lemma_chain_includes(g, p, card, owner, (k - 1) as nat, m, y);
        let j = choose|j: int| 0 <= j < prev.len() && prev[j] == (p, y);
        assert((prev + last)[j] == (p, y));
    }
}

/// The card at an active position (the placed card, or a flipped one) is
/// its card of `g0`, owned by `o`.
proof fn lemma_active_card(g0: Grid, g: Grid, f: Seq<bool>, o: Owner, p0: Pos, x: Pos)
    requires
        flips_tracked(g0, g, f, o),
        pos_in_bounds(x),
        x == p0 || f[flat(x)],
        at(g0, p0) matches Cell::Occupied { owner: op, .. } && op == o,
    ensures
        at(g0, x) matches Cell::Occupied { card: c, .. } && at(g, x) == (Cell::Occupied { card: c, owner: o }),
{
    assert(at(g, x) == at(g, x));
}

/// Resolving a queue whose winnable attacks are all queued leaves the placed
/// card and every card won with no attack left to win.
proof fn lemma_resolve_closes_chains(g0: Grid, g: Grid, qs: Seq<Battle>, i: nat, f: Seq<bool>, o: Owner, p0: Pos)
    requires
        flips_tracked(g0, g, f, o),
        attackers_owned_by(g, qs, i, o),
        pos_in_bounds(p0),
        at(g0, p0) matches Cell::Occupied { owner: op, .. } && op == o,
        chains_tracked(g0, g, qs, i, f, o, p0),
    ensures
        forall|x: Pos|
            #![trigger at(resolve(g, qs, i, f), x)]
            pos_in_bounds(x) && (x == p0 || (at(g0, x) matches Cell::Occupied { owner: ox, .. } && ox != o && owned_by(
                at(resolve(g, qs, i, f), x),
                o,
            ))) ==> no_winning_attack_left(resolve(g, qs, i, f), o, x),
    decreases unflipped(f), qs.len() - i,
{
    if i >= qs.len() {
        assert forall|x: Pos|
            #![trigger at(resolve(g, qs, i, f), x)]
            pos_in_bounds(x) && (x == p0 || (at(g0, x) matches Cell::Occupied { owner: ox, .. } && ox != o && owned_by(
                at(resolve(g, qs, i, f), x),
                o,
            ))) implies no_winning_attack_left(resolve(g, qs, i, f), o, x) by {
            assert(at(g, x) == at(g, x));
            assert(x == p0 || f[flat(x)]);
            lemma_active_card(g0, g, f, o, p0, x);
            assert(at(g0, x) == at(g0, x));
        }
    } else {
        let a = qs[i as int].0;
        let d = qs[i as int].1;
        assert(pos_in_bounds(a) && pos_in_bounds(d));
        let flips = match (at(g, a), at(g, d)) {
            (Cell::Occupied { card: acard, owner: aowner }, Cell::Occupied { card: dcard, owner: downer }) =>
                aowner != downer && acard.beats(dcard) && !f[flat(d)],
            _ => false,
        };
        if flips {
            let (acard, aowner, dcard, downer) = match (at(g, a), at(g, d)) {
                (Cell::Occupied { card: acard, owner: aowner }, Cell::Occupied { card: dcard, owner: downer }) =>
                    (acard, aowner, dcard, downer),
                _ => arbitrary(),
            };
            assert(aowner == o);
            lemma_unflipped_set(f, flat(d));
            lemma_flip_step(g0, g, qs, i, f, o, dcard, downer);
            let g2 = put(g, d.0 as int, d.1 as int, Cell::Occupied { card: dcard, owner: o });
            let f2 = f.update(flat(d), true);
            let c2 = chain_battles(g2, d, dcard, o, 8);
            let qs2 = qs + c2;
            lemma_at_put(g, d, Cell::Occupied { card: dcard, owner: o });
            lemma_flat_distinct(d, d);
            assert(at(g, d) == at(g, d));
            assert forall|x: Pos|
                #![trigger at(g0, x)]
                pos_in_bounds(x) && (x == p0 || f2[flat(x)]) implies (at(g0, x) matches Cell::Occupied { card: c, .. }
                    && attacks_queued(g2, qs2, i + 1, o, x, c)) by {
                lemma_flat_distinct(x, d);
                if x == d {
                    assert(at(g0, d) == Cell::Occupied { card: dcard, owner: downer });
                    assert forall|e: Direction|
                        #![trigger neighbour(d, e)]
                        dcard.points(e) implies (neighbour(d, e) matches Some(y) ==> ((at(g2, y) matches Cell::Occupied {
                            card: cy,
                            owner: oy,
                        } && oy != o && dcard.beats(cy)) ==> exists|j: int| #![trigger qs2[j]] i + 1 <= j < qs2.len() && qs2[j] == (d, y))) by {
                        if let Some(y) = neighbour(d, e) {
                            if at(g2, y) matches Cell::Occupied { owner: oy, .. } && oy != o {
                                lemma_dir_index(e);
                                let m = choose|m: int| 0 <= m < 8 && #[trigger] dir_at(m) == e;
                                lemma_chain_includes(g2, d, dcard, o, 8, m, y);
                                let jc = choose|jc: int| 0 <= jc < c2.len() && c2[jc] == (d, y);
                                assert(qs2[qs.len() + jc] == (d, y));
                            }
                        }
                    }
                } else {
                    assert(x == p0 || f[flat(x)]);
                    lemma_active_card(g0, g, f, o, p0, x);
                    let c = match at(g0, x) {
                        Cell::Occupied { card: c, .. } => c,
                        _ => dcard,
                    };
                    assert(attacks_queued(g, qs, i, o, x, c));
                    assert forall|e: Direction|
                        #![trigger neighbour(x, e)]
                        c.points(e) implies (neighbour(x, e) matches Some(y) ==> ((at(g2, y) matches Cell::Occupied {
                            card: cy,
                            owner: oy,
                        } && oy != o && c.beats(cy)) ==> exists|j: int| #![trigger qs2[j]] i + 1 <= j < qs2.len() && qs2[j] == (x, y))) by {
                        if let Some(y) = neighbour(x, e) {
                            if y != d && (at(g2, y) matches Cell::Occupied { card: cy, owner: oy } && oy != o && c.beats(cy)) {
                                assert(at(g2, y) == at(g, y));
                                let j = choose|j: int| #![trigger qs[j]] i <= j < qs.len() && qs[j] == (x, y);
                                assert(j != i);
                                assert(qs2[j] == qs[j]);
                            }
                        }
                    }
                }
            }
            lemma_resolve_closes_chains(g0, g2, qs2, i + 1, f2, o, p0);
        } else {
            assert forall|x: Pos|
                #![trigger at(g0, x)]
                pos_in_bounds(x) && (x == p0 || f[flat(x)]) implies (at(g0, x) matches Cell::Occupied { card: c, .. }
                    && attacks_queued(g, qs, i + 1, o, x, c)) by {
                lemma_active_card(g0, g, f, o, p0, x);
                let c = match at(g0, x) {
                    Cell::Occupied { card: c, .. } => c,
                    _ => Card { attack: 0, card_type: crate::card::CardType::Physical, phys_def: 0, mag_def: 0, arrows: 0 },
                };
                assert(attacks_queued(g, qs, i, o, x, c));
                assert forall|e: Direction|
                    #![trigger neighbour(x, e)]
                    c.points(e) implies (neighbour(x, e) matches Some(y) ==> ((at(g, y) matches Cell::Occupied {
                        card: cy,
                        owner: oy,
                    } && oy != o && c.beats(cy)) ==> exists|j: int| #![trigger qs[j]] i + 1 <= j < qs.len() && qs[j] == (x, y))) by {
                    if let Some(y) = neighbour(x, e) {
                        if at(g, y) matches Cell::Occupied { card: cy, owner: oy } && oy != o && c.beats(cy) {
                            let j = choose|j: int| #![trigger qs[j]] i <= j < qs.len() && qs[j] == (x, y);
                            if j == i {
                                assert(pos_in_bounds(y));
                                assert(at(g, y) == at(g, y));
                                assert(false);
                            }
                        }
                    }
                }
            }
            lemma_resolve_closes_chains(g0, g, qs, i + 1, f, o, p0);
        }
    }
}

/// Battles run to the end, chains included: after a placement that meets
/// no counterattack, neither the placed card nor any card the placer won
/// points at a card of the other player that it beats.
pub proof fn lemma_placement_leaves_no_winning_attack(g: Grid, p: Pos, card: Card, owner: Owner)
    requires
        well_shaped(g),
        pos_in_bounds(p),
        at(g, p) is Empty,
        no_counterattack(g, p, owner),
    ensures
        forall|x: Pos|
            #![trigger at(placed(g, p, card, owner), x)]
            pos_in_bounds(x) && (x == p || (at(g, x) matches Cell::Occupied { owner: ox, .. } && ox != owner && owned_by(
                at(placed(g, p, card, owner), x),
                owner,
            ))) ==> no_winning_attack_left(placed(g, p, card, owner), owner, x),
{
    let x0 = Cell::Occupied { card, owner };
    let g1 = put(g, p.0 as int, p.1 as int, x0);
    let q0 = opening_battles(g1, p, card, owner, 8);
    let f0 = Seq::new(16, |i: int| false);
    let h = placed(g, p, card, owner);
    lemma_at_put(g, p, x0);
    lemma_opening_queue_tracked(g, p, card, owner);
    assert forall|x: Pos|
        #![trigger at(g1, x)]
        pos_in_bounds(x) && (x == p || f0[flat(x)]) implies (at(g1, x) matches Cell::Occupied { card: c, .. }
            && attacks_queued(g1, q0, 0, owner, x, c)) by {
        lemma_flat_distinct(x, x);
        assert(x == p);
        assert forall|e: Direction|
            #![trigger neighbour(p, e)]
            card.points(e) implies (neighbour(p, e) matches Some(y) ==> ((at(g1, y) matches Cell::Occupied {
                card: cy,
                owner: oy,
            } && oy != owner && card.beats(cy)) ==> exists|j: int| #![trigger q0[j]] 0 <= j < q0.len() && q0[j] == (p, y))) by {
            if let Some(y) = neighbour(p, e) {
                if at(g1, y) matches Cell::Occupied { owner: oy, .. } && oy != owner {
                    lemma_dir_index(e);
                    let m = choose|m: int| 0 <= m < 8 && #[trigger] dir_at(m) == e;
                    let toward = opening_battles_toward(g1, p, card, owner, e);
                    assert(toward[0] == (p, y));
                    lemma_opening_includes(g1, p, card, owner, 8, m, (p, y));
                    let j = choose|j: int| 0 <= j < q0.len() && q0[j] == (p, y);
                    assert(q0[j] == (p, y));
                }
            }
        }
    }
    lemma_resolve_closes_chains(g1, g1, q0, 0, f0, owner, p);
    assert forall|x: Pos|
        #![trigger at(h, x)]
        pos_in_bounds(x) && (x == p || (at(g, x) matches Cell::Occupied { owner: ox, .. } && ox != owner && owned_by(
            at(h, x),
            owner,
        ))) implies no_winning_attack_left(h, owner, x) by {
        if x != p {
            assert(at(g1, x) == at(g, x));
        }
    }
}

} // verus!
