//! Tile geometry: fixed-height rectangular blocks of the hash tree, the unit
//! in which hashes are transferred and cached; their path encoding; and the
//! planner that computes which tiles a growth of the tree touches.
use vstd::prelude::*;

use crate::tlog::{
    descend, lemma_descend_closed, lemma_shift_sum_ge, lemma_stored_hash_index_injective,
    shift_sum, stored_hash_index_spec, Coordinate,
};
use crate::{
    lemma_pow2_consts, lemma_pow2_mono, lemma_pow2_pos, lemma_pow2_word_exp, pow2, pow2_exec,
};

verus! {

/// The mathematical content of a [`Tile`].
pub struct TileSpec {
    /// Height of the tile.
    pub height: nat,
    /// Level of the tile; `-1` marks a data tile.
    pub level: int,
    /// Number within the level.
    pub n: nat,
    /// Width of the tile.
    pub width: nat,
}

/// The geometry invariant every constructed tile satisfies.
pub open spec fn tile_spec_wf(t: TileSpec) -> bool {
    &&& 1 <= t.height <= 30
    &&& -1 <= t.level <= 63
    &&& 1 <= t.width <= pow2(t.height)
}

/// A description of a transparency log tile.
///
/// A tile of height `H` at level `L` offset `N` lists `W` consecutive hashes
/// at level `H*L` of the tree starting at offset `N*(2^H)`. A complete tile
/// lists `2^H` hashes; a partial tile lists fewer. A tile represents the
/// entire subtree of height `H` with those hashes as the leaves; the levels
/// above `H*L` can be reconstructed by hashing the leaves.
///
/// Each tile encodes as a "tile coordinate path" `tile/H/L/NNN[.p/W]`: the
/// `.p/W` suffix is present only for partial tiles, and `NNN` encodes `N` in
/// three-digit groups, all but the last prefixed with `x`. The special level
/// `-1` holds raw record data instead of hashes and encodes as the path
/// element `data`.
#[derive(Copy, Clone, Debug, PartialEq, Eq, Hash)]
pub struct Tile {
    height: usize,
    level: isize,
    n: usize,
    width: usize,
}

impl View for Tile {
    type V = TileSpec;

    closed spec fn view(&self) -> TileSpec {
        TileSpec {
            height: self.height as nat,
            level: self.level as int,
            n: self.n as nat,
            width: self.width as nat,
        }
    }
}

impl Tile {
    /// Whether this tile satisfies the geometry invariant; every tile this
    /// module hands out does.
    pub open spec fn wf(&self) -> bool {
        tile_spec_wf(self@)
    }

    /// Creates a `Tile`, returning `None` if any of the invariants are
    /// violated.
    pub fn new(height: usize, level: isize, n: usize, width: usize) -> (r: Option<Self>)
        ensures
            (r is Some) <==> (1 <= height <= 30 && -1 <= level <= 63 && 1 <= width
                && width as nat <= pow2(height as nat)),
            r matches Some(t) ==> t@ == (TileSpec {
                height: height as nat,
                level: level as int,
                n: n as nat,
                width: width as nat,
            }) && t.wf(),
    {
        if height < 1 || height > 30 {
            return None;
        }
        if level < -1 || level > 63 {
            return None;
        }
        proof {
            lemma_pow2_consts();
            lemma_pow2_mono(height as nat, 30);
        }
        let full = pow2_exec(height);
        if width < 1 || width > full {
            return None;
        }
        Some(Tile { height, level, n, width })
    }

    /// The height of the tile, in `1..=30`.
    pub fn height(&self) -> (r: usize)
        ensures
            r as nat == self@.height,
    {
        self.height
    }

    /// The level of the tile, in `-1..=63`.
    pub fn level(&self) -> (r: isize)
        ensures
            r as int == self@.level,
    {
        self.level
    }

    /// The number within the level.
    pub fn number(&self) -> (r: usize)
        ensures
            r as nat == self@.n,
    {
        self.n
    }

    /// The width of the tile, in `1..=2^height`.
    pub fn width(&self) -> (r: usize)
        ensures
            r as nat == self@.width,
    {
        self.width
    }

    /// Does this tile hold raw record data instead of hashes?
    pub fn is_data(&self) -> (r: bool)
        ensures
            r == (self@.level == -1),
    {
        self.level == -1
    }

    /// Returns the tile of the given fixed nonzero `height` containing the
    /// hash with the given storage index, wide enough to include it.
    ///
    /// Returns `None` exactly when `height` is out of range.
    pub fn for_index(height: usize, index: usize) -> (r: Option<Self>)
        ensures
            (r is Some) <==> 1 <= height <= 30,
            r matches Some(t) ==> t.wf() && (forall|level: int, n: nat|
                0 <= level <= 63 && stored_hash_index_spec(level, n) == index as int ==> t@
                    == tile_for_index_spec(height as nat, level as nat, n)),
    {
        if height < 1 || height > 30 {
            return None;
        }
        let c = Coordinate::split_stored_hash_index(index);
        let lvl: usize = c.level as usize;
        let tl: usize = lvl / height;
        let rem: usize = lvl % height;
        proof {
            lemma_pow2_consts();
            assert(rem < height) by {
                vstd::arithmetic::div_mod::lemma_mod_bound(lvl as int, height as int);
            }
            lemma_pow2_mono(rem as nat, 30);
            lemma_pow2_mono(height as nat, 30);
        }
        let p_rem = pow2_exec(rem);
        let p_h = pow2_exec(height);
        let ghost d = descend(lvl as nat, c.n as nat);
        proof {
            lemma_shift_sum_ge(d);
            assert(shift_sum(d) + lvl == index as int);
            lemma_descend_closed(lvl as nat, c.n as nat);
            vstd::arithmetic::div_mod::lemma_mod_decreases(lvl as nat, height as nat);
            lemma_pow2_mono(rem as nat, lvl as nat);
            lemma_pow2_pos(rem as nat);
            lemma_pow2_pos(lvl as nat);
            lemma_pow2_pos(height as nat);
            // The hash's level-0 position bounds every product we form.
            assert(c.n as nat * pow2(rem as nat) <= d) by (nonlinear_arith)
                requires
                    d + 1 == (c.n as nat + 1) * pow2(lvl as nat),
                    pow2(rem as nat) <= pow2(lvl as nat),
                    pow2(lvl as nat) >= 1,
            ;
        }
        let tn = (c.n * p_rem) / p_h;
        proof {
            assert(tn as int * p_h as int <= c.n as int * p_rem as int && (c.n as int
                * p_rem as int) < ((tn as int + 1) * p_h as int)) by (nonlinear_arith)
                requires
                    tn as int == (c.n as int * p_rem as int) / (p_h as int),
                    p_h as int >= 1,
            ;
        }
        let back = (tn * p_h) / p_rem;
        proof {
            crate::lemma_pow2_adds(rem as nat, (height - rem) as nat);
            let ph2 = pow2((height - rem) as nat);
            lemma_pow2_pos((height - rem) as nat);
            lemma_pow2_mono((height - rem) as nat, 30);
            assert(tn as int * p_h as int == (tn as int * ph2 as int) * p_rem as int)
                by (nonlinear_arith)
                requires
                    p_h as int == p_rem as int * ph2 as int,
            ;
            vstd::arithmetic::div_mod::lemma_div_by_multiple(
                tn as int * ph2 as int,
                p_rem as int,
            );
            assert(back as int == tn as int * ph2 as int);
            // `back <= n < back + 2^(height-rem)` pins the residue.
            assert(back as int <= c.n as int && (c.n as int) < back as int + ph2 as int)
                by (nonlinear_arith)
                requires
                    back as int == tn as int * ph2 as int,
                    tn as int * p_h as int <= c.n as int * p_rem as int,
                    (c.n as int * p_rem as int) < ((tn as int + 1) * p_h as int),
                    p_h as int == p_rem as int * ph2 as int,
                    p_rem as int >= 1,
            ;
            assert((c.n as int - back as int + 1) * p_rem as int <= p_h as int)
                by (nonlinear_arith)
                requires
                    c.n as int - back as int + 1 <= ph2 as int,
                    p_h as int == p_rem as int * ph2 as int,
                    p_rem as int >= 1,
            ;
            assert(1 * p_rem as int <= (c.n as int - back as int + 1) * p_rem as int)
                by (nonlinear_arith)
                requires
                    1 <= c.n as int - back as int + 1,
                    p_rem as int >= 1,
            ;
            assert(tl <= lvl) by {
                vstd::arithmetic::div_mod::lemma_div_is_ordered_by_denominator(
                    lvl as int,
                    1,
                    height as int,
                );
            }
        }
        let resid = c.n - back;
        proof {
            assert((resid + 1) as int * p_rem as int == (c.n as int - back as int + 1)
                * p_rem as int);
        }
        let width = (resid + 1) * p_rem;
        let t = Tile { height, level: tl as isize, n: tn, width };
        proof {
            assert forall|level: int, n: nat|
                0 <= level <= 63 && stored_hash_index_spec(level, n) == index as int implies t@
                == tile_for_index_spec(height as nat, level as nat, n) by {
                lemma_stored_hash_index_injective(level, n, c.level as int, c.n as nat);
            }
        }
        Some(t)
    }
}

/// The tile of the given height that [`Tile::for_index`] returns for a hash
/// at tree coordinate `(level, n)`.
pub open spec fn tile_for_index_spec(height: nat, level: nat, n: nat) -> TileSpec {
    let rem = level % height;
    let tn = n * pow2(rem) / pow2(height);
    let back = tn * pow2(height) / pow2(rem);
    TileSpec {
        height,
        level: (level / height) as int,
        n: tn,
        width: ((n - back + 1) * pow2(rem) as int) as nat,
    }
}

/// The tiles one growth step touches at one tile level: every tile index
/// newly covered in full, then one partial tile at the growth frontier if a
/// residue remains. `old_n` and `new_n` count the level-`height*level` units
/// present before and after the growth.
pub open spec fn level_tiles_spec(height: nat, old_n: nat, new_n: nat, level: int) -> Seq<
    TileSpec,
> {
    if old_n == new_n {
        Seq::empty()
    } else {
        let p = pow2(height);
        let lo = old_n / p;
        let hi = new_n / p;
        let full = if lo <= hi {
            Seq::new(
                (hi - lo) as nat,
                |i: int| TileSpec { height, level, n: (lo + i) as nat, width: p },
            )
        } else {
            Seq::empty()
        };
        if new_n % p > 0 {
            full + seq![TileSpec { height, level, n: hi, width: new_n % p }]
        } else {
            full
        }
    }
}

#[via_fn]
proof fn plan_spec_decreases(height: nat, old_s: nat, new_s: nat, level: int) {
    if new_s > 0 {
        lemma_pow2_pos((height - 1) as nat);
        assert(new_s / pow2(height) < new_s) by (nonlinear_arith)
            requires
                new_s >= 1,
                pow2(height) >= 2,
        ;
    }
}

/// All tiles touched when the tree grows from `old_s` to `new_s` units at
/// the given level, then (recursively) at every higher level until the tree
/// runs out: ascending by level, ascending by offset within a level.
pub open spec fn plan_spec(height: nat, old_s: nat, new_s: nat, level: int) -> Seq<TileSpec>
    decreases new_s,
        when height >= 1
        via plan_spec_decreases
{
    if new_s == 0 {
        Seq::empty()
    } else {
        level_tiles_spec(height, old_s, new_s, level) + plan_spec(
            height,
            old_s / pow2(height),
            new_s / pow2(height),
            level + 1,
        )
    }
}

/// The ordered set of tiles that change identity when the tree grows from
/// one size to another, all sharing one height.
#[derive(Clone, Debug)]
pub struct Tiles {
    tiles: Vec<Tile>,
}

impl View for Tiles {
    type V = Seq<TileSpec>;

    closed spec fn view(&self) -> Seq<TileSpec> {
        self.tiles@.map_values(|t: Tile| t@)
    }
}

impl Tiles {
    /// Every tile of the plan satisfies the geometry invariant.
    pub open spec fn wf(&self) -> bool {
        forall|i: int| 0 <= i < self@.len() ==> tile_spec_wf(#[trigger] self@[i])
    }

    /// The number of tiles in the plan.
    pub fn len(&self) -> (r: usize)
        ensures
            r == self@.len(),
    {
        self.tiles.len()
    }

    /// The `i`th tile of the plan, in emission order: ascending by level,
    /// then by offset within the level.
    pub fn get(&self, i: usize) -> (r: Tile)
        requires
            i < self@.len(),
        ensures
            r@ == self@[i as int],
    {
        self.tiles[i]
    }

    /// Computes every tile that changes identity — new tiles created, or a
    /// previously partial tile growing — when the tree grows from
    /// `old_tree_size` to `new_tree_size` leaves, at a fixed tile height.
    /// Fails exactly when `height` is out of range.
    pub fn new(height: usize, old_tree_size: usize, new_tree_size: usize) -> (r: Option<Tiles>)
        ensures
            (r is Some) <==> 1 <= height <= 30,
            r matches Some(ts) ==> ts@ == plan_spec(
                height as nat,
                old_tree_size as nat,
                new_tree_size as nat,
                0,
            ) && ts.wf(),
    {
        if height < 1 || height > 30 {
            return None;
        }
        proof {
            lemma_pow2_consts();
            lemma_pow2_mono(height as nat, 30);
            lemma_pow2_pos((height - 1) as nat);
        }
        let p = pow2_exec(height);
        let ghost old0 = old_tree_size as nat;
        let ghost new0 = new_tree_size as nat;
        let mut tiles: Vec<Tile> = Vec::new();
        let mut old_s = old_tree_size;
        let mut new_s = new_tree_size;
        let mut level: usize = 0;
        proof {
            assert(tiles@.map_values(|t: Tile| t@) =~= Seq::<TileSpec>::empty());
            assert(pow2(0) == 1);
            assert(1 * new0 == new0);
        }
        while new_s > 0
            invariant
                1 <= height <= 30,
                p == pow2(height as nat),
                p >= 2,
                pow2(height as nat) <= 0x4000_0000nat,
                old0 == old_tree_size as nat,
                new0 == new_tree_size as nat,
                plan_spec(height as nat, old0, new0, 0) == tiles@.map_values(|t: Tile| t@)
                    + plan_spec(height as nat, old_s as nat, new_s as nat, level as int),
                new_s >= 1 ==> pow2(level as nat) * new_s as nat <= new0,
                forall|i: int| 0 <= i < tiles@.len() ==> tile_spec_wf((#[trigger] tiles@[i])@),
            decreases new_s,
        {
            proof {
                lemma_pow2_pos(level as nat);
                assert(pow2(level as nat) <= pow2(level as nat) * new_s as nat)
                    by (nonlinear_arith)
                    requires
                        new_s >= 1,
                        pow2(level as nat) >= 1,
                ;
                lemma_pow2_word_exp(level as nat);
            }
            let ghost base = tiles@.map_values(|t: Tile| t@);
            let ghost lts = level_tiles_spec(
                height as nat,
                old_s as nat,
                new_s as nat,
                level as int,
            );
            if old_s != new_s {
                let lo = old_s / p;
                let hi = new_s / p;
                let mut t_n = lo;
                proof {
                    assert(Seq::new(0, |i: int| TileSpec {
                        height: height as nat,
                        level: level as int,
                        n: (lo as int + i) as nat,
                        width: p as nat,
                    }) =~= Seq::<TileSpec>::empty());
                }
                while t_n < hi
                    invariant
                        1 <= height <= 30,
                        p == pow2(height as nat),
                        p >= 2,
                        pow2(height as nat) <= 0x4000_0000nat,
                        0 <= level <= 63,
                        lo <= t_n,
                        lo < hi ==> t_n <= hi,
                        lo >= hi ==> t_n == lo,
                        tiles@.map_values(|t: Tile| t@) == base + Seq::new(
                            (t_n - lo) as nat,
                            |i: int| TileSpec {
                                height: height as nat,
                                level: level as int,
                                n: (lo as int + i) as nat,
                                width: p as nat,
                            },
                        ),
                        forall|i: int|
                            0 <= i < tiles@.len() ==> tile_spec_wf((#[trigger] tiles@[i])@),
                    decreases hi - t_n,
                {
                    let ghost prev = tiles@.map_values(|t: Tile| t@);
                    let t = Tile { height, level: level as isize, n: t_n, width: p };
                    tiles.push(t);
                    t_n = t_n + 1;
                    proof {
                        assert(tiles@.map_values(|t: Tile| t@) =~= prev + seq![t@]);
                        assert(base + Seq::new(
                            (t_n - lo) as nat,
                            |i: int| TileSpec {
                                height: height as nat,
                                level: level as int,
                                n: (lo as int + i) as nat,
                                width: p as nat,
                            },
                        ) =~= (base + Seq::new(
                            (t_n - 1 - lo) as nat,
                            |i: int| TileSpec {
                                height: height as nat,
                                level: level as int,
                                n: (lo as int + i) as nat,
                                width: p as nat,
                            },
                        )) + seq![t@]);
                    }
                }
                let w = new_s % p;
                if w > 0 {
                    let ghost prev = tiles@.map_values(|t: Tile| t@);
                    let t = Tile { height, level: level as isize, n: hi, width: w };
                    tiles.push(t);
                    proof {
                        assert(tiles@.map_values(|t: Tile| t@) =~= prev + seq![t@]);
                    }
                }
                proof {
                    assert(tiles@.map_values(|t: Tile| t@) =~= base + lts);
                }
            } else {
                proof {
                    assert(lts =~= Seq::<TileSpec>::empty());
                    assert(tiles@.map_values(|t: Tile| t@) =~= base + lts);
                }
            }
            proof {
                // One unfolding of the plan at this level.
                assert(plan_spec(height as nat, old_s as nat, new_s as nat, level as int) == lts
                    + plan_spec(
                    height as nat,
                    (old_s / p) as nat,
                    (new_s / p) as nat,
                    level as int + 1,
                ));
                assert((tiles@.map_values(|t: Tile| t@)) + plan_spec(
                    height as nat,
                    (old_s / p) as nat,
                    (new_s / p) as nat,
                    level as int + 1,
                ) =~= base + (lts + plan_spec(
                    height as nat,
                    (old_s / p) as nat,
                    (new_s / p) as nat,
                    level as int + 1,
                )));
                // The size bound carries to the next level.
                vstd::arithmetic::div_mod::lemma_div_is_ordered_by_denominator(
                    new_s as int,
                    2,
                    p as int,
                );
                let a = pow2(level as nat) as int;
                let q = new_s as int / p as int;
                assert(pow2((level + 1) as nat) == 2 * pow2(level as nat));
                assert(2 * a * q <= a * (new_s as int)) by (nonlinear_arith)
                    requires
                        q <= new_s as int / 2,
                        2 * (new_s as int / 2) <= new_s as int,
                        a >= 0,
                ;
                assert((new_s / p) as int == q);
                assert(pow2((level + 1) as nat) * ((new_s / p) as nat) == 2 * a * q);
            }
            old_s = old_s / p;
            new_s = new_s / p;
            level = level + 1;
        }
        proof {
            assert(plan_spec(height as nat, old_s as nat, new_s as nat, level as int)
                == Seq::<TileSpec>::empty());
            assert(tiles@.map_values(|t: Tile| t@) + Seq::<TileSpec>::empty() =~= tiles@.map_values(
                |t: Tile| t@,
            ));
            let m = tiles@.map_values(|t: Tile| t@);
            assert forall|i: int| 0 <= i < m.len() implies tile_spec_wf(#[trigger] m[i]) by {
                assert(m[i] == tiles@[i]@);
            }
        }
        Some(Tiles { tiles })
    }
}

/// The character for one decimal digit.
pub open spec fn digit_char_spec(d: nat) -> char {
    if d == 0 {
        '0'
    } else if d == 1 {
        '1'
    } else if d == 2 {
        '2'
    } else if d == 3 {
        '3'
    } else if d == 4 {
        '4'
    } else if d == 5 {
        '5'
    } else if d == 6 {
        '6'
    } else if d == 7 {
        '7'
    } else if d == 8 {
        '8'
    } else {
        '9'
    }
}

/// The decimal rendering of `n`, without leading zeroes.
pub open spec fn dec_str(n: nat) -> Seq<char>
    decreases n,
{
    if n < 10 {
        seq![digit_char_spec(n)]
    } else {
        dec_str(n / 10) + seq![digit_char_spec(n % 10)]
    }
}

/// The three-digit zero-padded rendering of `m < 1000`.
pub open spec fn pad3(m: nat) -> Seq<char> {
    seq![digit_char_spec(m / 100 % 10), digit_char_spec(m / 10 % 10), digit_char_spec(m % 10)]
}

/// The leading base-1000 groups of a tile number: each prefixed `x`,
/// three-digit padded, and followed by a slash.
pub open spec fn prefix_groups(m: nat) -> Seq<char>
    decreases m,
{
    if m == 0 {
        Seq::empty()
    } else {
        prefix_groups(m / 1000) + seq!['x'] + pad3(m % 1000) + seq!['/']
    }
}

/// The full base-1000 group encoding of a tile number: every group but the
/// last prefixed `x`, the last bare; all groups three-digit padded.
pub open spec fn path_groups(n: nat) -> Seq<char> {
    prefix_groups(n / 1000) + pad3(n % 1000)
}

/// The tile coordinate path `tile/H/L/NNN[.p/W]`: level -1 renders as the
/// literal segment `data`, and the `.p/W` suffix appears exactly for partial
/// tiles.
pub open spec fn tile_path_spec(t: TileSpec) -> Seq<char> {
    seq!['t', 'i', 'l', 'e', '/'] + dec_str(t.height) + seq!['/'] + (if t.level == -1 {
        seq!['d', 'a', 't', 'a']
    } else {
        dec_str(t.level as nat)
    }) + seq!['/'] + path_groups(t.n) + (if t.width != pow2(t.height) {
        seq!['.', 'p', '/'] + dec_str(t.width)
    } else {
        Seq::empty()
    })
}

/// Appends one decimal digit character.
fn append_digit(s: &mut String, d: usize)
    requires
        d < 10,
    ensures
        final(s)@ == old(s)@ + seq![digit_char_spec(d as nat)],
{
    if d == 0 {
        proof {
            reveal_strlit("0");
            assert("0"@ =~= seq!['0']);
        }
        s.append("0");
    } else if d == 1 {
        proof {
            reveal_strlit("1");
            assert("1"@ =~= seq!['1']);
        }
        s.append("1");
    } else if d == 2 {
        proof {
            reveal_strlit("2");
            assert("2"@ =~= seq!['2']);
        }
        s.append("2");
    } else if d == 3 {
        proof {
            reveal_strlit("3");
            assert("3"@ =~= seq!['3']);
        }
        s.append("3");
    } else if d == 4 {
        proof {
            reveal_strlit("4");
            assert("4"@ =~= seq!['4']);
        }
        s.append("4");
    } else if d == 5 {
        proof {
            reveal_strlit("5");
            assert("5"@ =~= seq!['5']);
        }
        s.append("5");
    } else if d == 6 {
        proof {
            reveal_strlit("6");
            assert("6"@ =~= seq!['6']);
        }
        s.append("6");
    } else if d == 7 {
        proof {
            reveal_strlit("7");
            assert("7"@ =~= seq!['7']);
        }
        s.append("7");
    } else if d == 8 {
        proof {
            reveal_strlit("8");
            assert("8"@ =~= seq!['8']);
        }
        s.append("8");
    } else {
        proof {
            reveal_strlit("9");
            assert("9"@ =~= seq!['9']);
        }
        s.append("9");
    }
}

/// Appends the decimal rendering of `n`.
fn append_dec(s: &mut String, n: usize)
    ensures
        final(s)@ == old(s)@ + dec_str(n as nat),
    decreases n,
{
    if n >= 10 {
        append_dec(s, n / 10);
    }
    append_digit(s, n % 10);
    proof {
        assert(s@ =~= old(s)@ + dec_str(n as nat));
    }
}

/// Appends the three-digit zero-padded rendering of `m < 1000`.
fn append_pad3(s: &mut String, m: usize)
    requires
        m < 1000,
    ensures
        final(s)@ == old(s)@ + pad3(m as nat),
{
    append_digit(s, m / 100);
    append_digit(s, m / 10 % 10);
    append_digit(s, m % 10);
    proof {
        assert(m / 100 == m as nat / 100 % 10);
        assert(s@ =~= old(s)@ + pad3(m as nat));
    }
}

/// Appends the leading `x`-prefixed groups of a tile number.
fn append_prefix_groups(s: &mut String, m: usize)
    ensures
        final(s)@ == old(s)@ + prefix_groups(m as nat),
    decreases m,
{
    if m == 0 {
        proof {
            assert(s@ =~= old(s)@ + prefix_groups(0));
        }
        return ;
    }
    append_prefix_groups(s, m / 1000);
    proof {
        reveal_strlit("x");
        assert("x"@ =~= seq!['x']);
        reveal_strlit("/");
        assert("/"@ =~= seq!['/']);
    }
    s.append("x");
    append_pad3(s, m % 1000);
    s.append("/");
    proof {
        assert(s@ =~= old(s)@ + prefix_groups(m as nat));
    }
}

/// Appends the full group encoding of a tile number.
fn append_groups(s: &mut String, n: usize)
    ensures
        final(s)@ == old(s)@ + path_groups(n as nat),
{
    append_prefix_groups(s, n / 1000);
    append_pad3(s, n % 1000);
    proof {
        assert(s@ =~= old(s)@ + path_groups(n as nat));
    }
}

impl Tile {
    /// The tile coordinate path of this tile, `tile/H/L/NNN[.p/W]`: the unit
    /// of interoperability with any peer fetching tiles by path.
    pub fn path(&self) -> (r: String)
        requires
            self.wf(),
        ensures
            r@ == tile_path_spec(self@),
    {
        let mut s = String::new();
        proof {
            reveal_strlit("tile/");
            assert("tile/"@ =~= seq!['t', 'i', 'l', 'e', '/']);
            reveal_strlit("/");
            assert("/"@ =~= seq!['/']);
        }
        s.append("tile/");
        append_dec(&mut s, self.height);
        s.append("/");
        if self.level == -1 {
            proof {
                reveal_strlit("data");
                assert("data"@ =~= seq!['d', 'a', 't', 'a']);
            }
            s.append("data");
        } else {
            append_dec(&mut s, self.level as usize);
        }
        s.append("/");
        append_groups(&mut s, self.n);
        proof {
            lemma_pow2_consts();
            lemma_pow2_mono(self@.height, 30);
        }
        let full = pow2_exec(self.height);
        if self.width != full {
            proof {
                reveal_strlit(".p/");
                assert(".p/"@ =~= seq!['.', 'p', '/']);
            }
            s.append(".p/");
            append_dec(&mut s, self.width);
        }
        proof {
            assert(s@ =~= tile_path_spec(self@));
        }
        s
    }
}

/// The value of a decimal digit character, or 10 for any other character.
pub open spec fn digit_val_spec(c: char) -> nat {
    if c == '0' {
        0
    } else if c == '1' {
        1
    } else if c == '2' {
        2
    } else if c == '3' {
        3
    } else if c == '4' {
        4
    } else if c == '5' {
        5
    } else if c == '6' {
        6
    } else if c == '7' {
        7
    } else if c == '8' {
        8
    } else if c == '9' {
        9
    } else {
        10
    }
}

proof fn lemma_digit_round_trip(d: nat)
    requires
        d < 10,
    ensures
        digit_val_spec(digit_char_spec(d)) == d,
{
}

/// The numeric value of a most-significant-first digit string.
pub open spec fn digits_val(s: Seq<char>) -> nat
    decreases s.len(),
{
    if s.len() == 0 {
        0
    } else {
        digits_val(s.drop_last()) * 10 + digit_val_spec(s.last())
    }
}

proof fn lemma_digits_val_dec_str(v: nat)
    ensures
        digits_val(dec_str(v)) == v,
    decreases v,
{
    assert(digits_val(Seq::<char>::empty()) == 0);
    assert(digits_val(dec_str(v)) == digits_val(dec_str(v).drop_last()) * 10 + digit_val_spec(
        dec_str(v).last(),
    ));
    if v < 10 {
        assert(dec_str(v).drop_last() =~= Seq::<char>::empty());
        lemma_digit_round_trip(v);
    } else {
        lemma_digits_val_dec_str(v / 10);
        assert(dec_str(v).drop_last() =~= dec_str(v / 10));
        assert(dec_str(v).last() == digit_char_spec(v % 10));
        lemma_digit_round_trip(v % 10);
    }
}

/// A digit string is worth at least any of its prefixes.
proof fn lemma_digits_val_prefix(s: Seq<char>, k: int)
    requires
        0 <= k <= s.len(),
    ensures
        digits_val(s.subrange(0, k)) <= digits_val(s),
    decreases s.len() - k,
{
    if k < s.len() {
        assert(s.subrange(0, k + 1).drop_last() =~= s.subrange(0, k));
        assert(s.subrange(0, k + 1).last() == s[k]);
        lemma_digits_val_prefix(s, k + 1);
    } else {
        assert(s.subrange(0, k) =~= s);
    }
}

/// Whether the text at `start` is exactly the decimal rendering of `v`,
/// followed by the end of the text or a non-digit.
pub open spec fn dec_at(s: Seq<char>, start: int, v: nat) -> bool {
    &&& 0 <= start
    &&& start + dec_str(v).len() <= s.len()
    &&& s.subrange(start, start + dec_str(v).len() as int) == dec_str(v)
    &&& (start + dec_str(v).len() == s.len() || !is_digit_char(
        s[start + dec_str(v).len() as int],
    ))
}

fn digit_value(c: char) -> (r: usize)
    ensures
        r <= 10,
        r == digit_val_spec(c),
        (r < 10) == is_digit_char(c),
{
    if c == '0' {
        0
    } else if c == '1' {
        1
    } else if c == '2' {
        2
    } else if c == '3' {
        3
    } else if c == '4' {
        4
    } else if c == '5' {
        5
    } else if c == '6' {
        6
    } else if c == '7' {
        7
    } else if c == '8' {
        8
    } else if c == '9' {
        9
    } else {
        10
    }
}

/// Reads a maximal nonempty run of decimal digits starting at `start`,
/// returning the value and the position after the run; `None` on no digit or
/// where the run's value exceeds a word. Where the text at `start` renders a
/// value that fits, that value and the end of its rendering are returned.
fn parse_num(cs: &Vec<char>, start: usize) -> (r: Option<(usize, usize)>)
    requires
        start <= cs@.len(),
    ensures
        r matches Some(pr) ==> start < pr.1 <= cs@.len(),
        forall|v: nat|
            v <= usize::MAX as nat && dec_at(cs@, start as int, v) ==> r == Some(
                ((v as usize), ((start + dec_str(v).len()) as usize)),
            ),
{
    let len = cs.len();
    let mut pos: usize = start;
    let mut val: usize = 0;
    proof {
        assert(cs@.subrange(start as int, start as int) =~= Seq::<char>::empty());
    }
    while pos < len && digit_value(cs[pos]) < 10
        invariant
            start <= pos <= len,
            len == cs@.len(),
            val as nat == digits_val(cs@.subrange(start as int, pos as int)),
            forall|i: int| start <= i < pos ==> is_digit_char(#[trigger] cs@[i]),
        decreases len - pos,
    {
        let d = digit_value(cs[pos]);
        proof {
            assert(cs@.subrange(start as int, pos + 1).drop_last() =~= cs@.subrange(
                start as int,
                pos as int,
            ));
            assert(cs@.subrange(start as int, pos + 1).last() == cs@[pos as int]);
        }
        if val > usize::MAX / 10 || (val == usize::MAX / 10 && d > usize::MAX % 10) {
            proof {
                assert forall|v: nat|
                    v <= usize::MAX as nat && dec_at(cs@, start as int, v) implies false by {
                    lemma_in_dec_run(cs@, start as int, v, pos as int);
                    assert(cs@.subrange(start as int, pos + 1) =~= dec_str(v).subrange(
                        0,
                        pos + 1 - start,
                    ));
                    lemma_digits_val_prefix(dec_str(v), pos + 1 - start);
                    lemma_digits_val_dec_str(v);
                }
            }
            return None;
        }
        val = val * 10 + d;
        pos = pos + 1;
    }
    if pos == start {
        proof {
            assert forall|v: nat|
                v <= usize::MAX as nat && dec_at(cs@, start as int, v) implies false by {
                lemma_dec_str_digits(v);
                assert(cs@[start as int] == dec_str(v)[0]);
            }
        }
        return None;
    }
    proof {
        assert forall|v: nat|
            v <= usize::MAX as nat && dec_at(cs@, start as int, v) implies pos == start + dec_str(
            v,
        ).len() && val == v by {
            lemma_dec_str_digits(v);
            let dl = dec_str(v).len() as int;
            if pos < start + dl {
                assert(cs@.subrange(start as int, start + dl)[pos - start] == cs@[pos as int]);
                assert(is_digit_char(cs@[pos as int]));
                assert(false);
            }
            if pos > start + dl {
                assert(is_digit_char(cs@[start + dl]));
                assert(false);
            }
            assert(cs@.subrange(start as int, pos as int) == dec_str(v));
            lemma_digits_val_dec_str(v);
        }
    }
    Some((val, pos))
}

/// A digit position whose predecessors back to `start` are all digits lies
/// strictly inside the rendering of `v` at `start`, whose characters it
/// shares.
proof fn lemma_in_dec_run(s: Seq<char>, start: int, v: nat, pos: int)
    requires
        dec_at(s, start, v),
        start <= pos < s.len(),
        is_digit_char(s[pos]),
        forall|i: int| start <= i < pos ==> is_digit_char(#[trigger] s[i]),
    ensures
        pos < start + dec_str(v).len(),
        forall|i: int|
            start <= i < start + dec_str(v).len() ==> is_digit_char(#[trigger] s[i]) && s[i]
                == dec_str(v)[i - start],
{
    lemma_dec_str_digits(v);
    let dl = dec_str(v).len() as int;
    assert forall|i: int|
        start <= i < start + dl implies is_digit_char(#[trigger] s[i]) && s[i] == dec_str(v)[i
        - start] by {
        assert(s.subrange(start, start + dl)[i - start] == s[i]);
    }
    if pos >= start + dl {
        assert(start + dl < s.len());
        assert(!is_digit_char(s[start + dl]));
        assert(false);
    }
}

/// Reads exactly three decimal digits starting at `start`; where the text
/// there is the padded rendering of a group value, that value is returned.
fn parse_group(cs: &Vec<char>, start: usize) -> (r: Option<usize>)
    requires
        start + 3 <= cs@.len(),
    ensures
        r matches Some(g) ==> g < 1000,
        forall|m: nat|
            m < 1000 && cs@.subrange(start as int, start + 3) == pad3(m) ==> r == Some(
                (m as usize),
            ),
{
    let avail = cs.len();
    proof {
        assert(start + 2 < avail);
        assert forall|m: nat|
            m < 1000 && cs@.subrange(start as int, start + 3) == pad3(m) implies {
            &&& cs@[start as int] == digit_char_spec(m / 100 % 10)
            &&& cs@[start + 1] == digit_char_spec(m / 10 % 10)
            &&& cs@[start + 2] == digit_char_spec(m % 10)
        } by {
            assert(cs@.subrange(start as int, start + 3)[0] == cs@[start as int]);
            assert(cs@.subrange(start as int, start + 3)[1] == cs@[start + 1]);
            assert(cs@.subrange(start as int, start + 3)[2] == cs@[start + 2]);
        }
    }
    let d1 = digit_value(cs[start]);
    let d2 = digit_value(cs[start + 1]);
    let d3 = digit_value(cs[start + 2]);
    proof {
        assert forall|m: nat|
            m < 1000 && cs@.subrange(start as int, start + 3) == pad3(m) implies d1 == m / 100
            && d2 == m / 10 % 10 && d3 == m % 10 by {
            lemma_digit_round_trip(m / 100 % 10);
            lemma_digit_round_trip(m / 10 % 10);
            lemma_digit_round_trip(m % 10);
        }
    }
    if d1 == 10 || d2 == 10 || d3 == 10 {
        return None;
    }
    Some(d1 * 100 + d2 * 10 + d3)
}

/// The level path segment: the literal `data` for a data tile, the decimal
/// level otherwise.
pub open spec fn level_seg(t: TileSpec) -> Seq<char> {
    if t.level == -1 {
        seq!['d', 'a', 't', 'a']
    } else {
        dec_str(t.level as nat)
    }
}

/// The trailing width segment: `.p/W` for a partial tile, empty for a full
/// one.
pub open spec fn width_seg(t: TileSpec) -> Seq<char> {
    if t.width != pow2(t.height) {
        seq!['.', 'p', '/'] + dec_str(t.width)
    } else {
        Seq::<char>::empty()
    }
}

/// Carves a tile's path into its segments, locating each at its offset.
#[verifier::rlimit(100)]
proof fn lemma_tile_path_segments(s: Seq<char>, t: TileSpec)
    requires
        s == tile_path_spec(t),
    ensures
        ({
            let hp1 = 5 + dec_str(t.height).len() as int;
            let lp0 = hp1 + 1;
            let lp1 = lp0 + level_seg(t).len() as int;
            let g0 = lp1 + 1;
            let g1 = g0 + path_groups(t.n).len() as int;
            &&& s.len() == g1 + width_seg(t).len()
            &&& s[0] == 't'
            &&& s[1] == 'i'
            &&& s[2] == 'l'
            &&& s[3] == 'e'
            &&& s[4] == '/'
            &&& s.subrange(5, hp1) == dec_str(t.height)
            &&& s[hp1] == '/'
            &&& s.subrange(lp0, lp1) == level_seg(t)
            &&& s[lp1] == '/'
            &&& s.subrange(g0, g1) == path_groups(t.n)
            &&& s.subrange(g1, s.len() as int) == width_seg(t)
        }),
{
    let hp1 = 5 + dec_str(t.height).len() as int;
    let lp0 = hp1 + 1;
    let lp1 = lp0 + level_seg(t).len() as int;
    let g0 = lp1 + 1;
    let g1 = g0 + path_groups(t.n).len() as int;
    assert(s =~= seq!['t', 'i', 'l', 'e', '/'] + dec_str(t.height) + seq!['/'] + level_seg(t)
        + seq!['/'] + path_groups(t.n) + width_seg(t));
    assert(s.subrange(5, hp1) =~= dec_str(t.height));
    assert(s.subrange(lp0, lp1) =~= level_seg(t));
    assert(s.subrange(g0, g1) =~= path_groups(t.n));
    assert(s.subrange(g1, s.len() as int) =~= width_seg(t));
}

/// Reads the base-1000 group region `[gstart, gend)` back into a tile
/// number, low groups rightmost. Where (`active`) the region is known to
/// render `nval` and that value fits a word, the read succeeds with it.
#[verifier::loop_isolation(false)]
#[verifier::rlimit(100)]
fn parse_group_run(
    cs: &Vec<char>,
    gstart: usize,
    gend: usize,
    Ghost(active): Ghost<bool>,
    Ghost(nval): Ghost<nat>,
) -> (r: Option<usize>)
    requires
        gstart <= gend <= cs@.len(),
        active ==> nval <= usize::MAX as nat && cs@.subrange(gstart as int, gend as int)
            == path_groups(nval),
    ensures
        active ==> r == Some((nval as usize)),
{
    proof {
        if active {
            lemma_prefix_groups_shape(nval / 1000);
            lemma_pad3_digits(nval % 1000);
            assert(path_groups(nval) == prefix_groups(nval / 1000) + pad3(nval % 1000));
            assert(path_groups(nval).len() == prefix_groups(nval / 1000).len() + 3);
            assert(gend - gstart == path_groups(nval).len());
            assert forall|i: int|
                gstart <= i < gend implies cs@[i] == path_groups(nval)[i - gstart] by {
                assert(cs@.subrange(gstart as int, gend as int)[i - gstart] == cs@[i]);
            }
        }
    }
    if gend - gstart < 3 {
        proof {
            if active {
                assert(false);
            }
        }
        return None;
    }
    let glast = gend - 3;
    proof {
        if active {
            assert(cs@.subrange(glast as int, gend as int) =~= pad3(nval % 1000));
        }
    }
    let g_low = match parse_group(cs, glast) {
        Some(g) => g,
        None => {
            proof {
                if active {
                    assert(false);
                }
            }
            return None;
        },
    };
    let mut n: usize = g_low;
    let mut place: usize = 1000;
    let mut cur: usize = glast;
    let ghost mut m_rem: nat = nval / 1000;
    proof {
        if active {
            assert(n == nval % 1000);
            assert(cs@.subrange(gstart as int, cur as int) =~= prefix_groups(m_rem));
            vstd::arithmetic::div_mod::lemma_fundamental_div_mod(nval as int, 1000);
        }
    }
    while cur > gstart
        invariant
            gstart <= cur <= gend,
            active ==> {
                &&& cs@.subrange(gstart as int, cur as int) == prefix_groups(m_rem)
                &&& nval == m_rem * place as nat + n as nat
            },
        decreases cur,
    {
        proof {
            if active {
                lemma_prefix_groups_shape(m_rem);
                assert(m_rem > 0) by {
                    if m_rem == 0 {
                        assert(prefix_groups(m_rem).len() == 0);
                    }
                }
                lemma_prefix_groups_shape(m_rem / 1000);
                lemma_pad3_digits(m_rem % 1000);
                let pg = prefix_groups(m_rem);
                let pl = pg.len() as int;
                assert(pg == prefix_groups(m_rem / 1000) + seq!['x'] + pad3(m_rem % 1000)
                    + seq!['/']);
                assert forall|i: int| 0 <= i < pl implies cs@[gstart + i] == pg[i] by {
                    assert(cs@.subrange(gstart as int, cur as int)[i] == cs@[gstart + i]);
                }
                assert(cur - gstart >= 5);
                assert(cs@[cur - 5] == pg[pl - 5]);
                assert(pg[pl - 5] == 'x');
                assert(cs@[cur - 1] == pg[pl - 1]);
                assert(pg[pl - 1] == '/');
                assert(cs@.subrange(cur - 4, cur - 1) =~= pad3(m_rem % 1000));
            }
        }
        if cur - gstart < 5 {
            proof {
                if active {
                    assert(false);
                }
            }
            return None;
        }
        if cs[cur - 5] != 'x' {
            proof {
                if active {
                    assert(false);
                }
            }
            return None;
        }
        let g = match parse_group(cs, cur - 4) {
            Some(g) => g,
            None => {
                proof {
                    if active {
                        assert(false);
                    }
                }
                return None;
            },
        };
        if cs[cur - 1] != '/' {
            proof {
                if active {
                    assert(false);
                }
            }
            return None;
        }
        proof {
            if active {
                assert(g == m_rem % 1000);
                vstd::arithmetic::div_mod::lemma_fundamental_div_mod(m_rem as int, 1000);
                assert((m_rem % 1000) * place as nat <= m_rem * place as nat) by (nonlinear_arith)
                    requires
                        m_rem % 1000 <= m_rem,
                        place as nat >= 0,
                ;
            }
        }
        if g > 0 && place > (usize::MAX - n) / g {
            proof {
                if active {
                    assert(g as nat * place as nat > usize::MAX as nat - n as nat)
                        by (nonlinear_arith)
                        requires
                            g >= 1,
                            place as int > (usize::MAX as int - n as int) / g as int,
                            usize::MAX as int - n as int >= 0,
                    ;
                    assert(false);
                }
            }
            return None;
        }
        proof {
            if g > 0 {
                assert(g as nat * place as nat <= usize::MAX as nat - n as nat)
                    by (nonlinear_arith)
                    requires
                        g >= 1,
                        place as int <= (usize::MAX as int - n as int) / g as int,
                        usize::MAX as int - n as int >= 0,
                ;
            }
        }
        n = n + g * place;
        cur = cur - 5;
        proof {
            if active {
                assert(cs@.subrange(gstart as int, cur as int) =~= prefix_groups(m_rem / 1000));
                assert((m_rem / 1000) * (1000 * place as nat) + (m_rem % 1000) * place as nat
                    == m_rem * place as nat) by (nonlinear_arith)
                    requires
                        m_rem == 1000 * (m_rem / 1000) + m_rem % 1000,
                ;
            }
            m_rem = m_rem / 1000;
        }
        if cur > gstart {
            proof {
                if active {
                    lemma_prefix_groups_shape(m_rem);
                    assert(m_rem > 0) by {
                        if m_rem == 0 {
                            assert(prefix_groups(m_rem).len() == 0);
                        }
                    }
                    assert(m_rem * (1000 * place as nat) >= 1000 * place as nat)
                        by (nonlinear_arith)
                        requires
                            m_rem >= 1,
                            place as nat >= 0,
                    ;
                }
            }
            if place > usize::MAX / 1000 {
                proof {
                    if active {
                        assert(false);
                    }
                }
                return None;
            }
            place = place * 1000;
        }
    }
    proof {
        if active {
            assert(m_rem == 0) by {
                lemma_prefix_groups_shape(m_rem);
                if m_rem > 0 {
                    assert(prefix_groups(m_rem).len() >= 5);
                }
            }
            assert(0 * place as nat == 0) by (nonlinear_arith);
            assert(n as nat == nval);
        }
    }
    Some(n)
}

/// Reads the `tile/H/L/` header, returning the height, the level, and the
/// position just after the level's slash. Where (`active`) the text is known
/// to be the path of `w`, the read succeeds with `w`'s fields.
#[verifier::rlimit(100)]
fn parse_header(cs: &Vec<char>, Ghost(active): Ghost<bool>, Ghost(w): Ghost<TileSpec>) -> (r:
    Option<(usize, isize, usize)>)
    requires
        active ==> tile_spec_wf(w) && cs@ == tile_path_spec(w),
    ensures
        r matches Some(tr) ==> tr.2 <= cs@.len() && 1 <= tr.0 <= 30,
        active ==> (r matches Some(tr) && tr.0 as nat == w.height && tr.1 as int == w.level
            && tr.2 as int == 5 + dec_str(w.height).len() + 1 + level_seg(w).len() + 1),
{
    let ghost hp1: int = 5 + dec_str(w.height).len() as int;
    let ghost lp0: int = hp1 + 1;
    let ghost lp1: int = lp0 + level_seg(w).len() as int;
    proof {
        if active {
            lemma_tile_path_segments(cs@, w);
            lemma_dec_str_digits(w.height);
            if w.level != -1 {
                lemma_dec_str_digits(w.level as nat);
            }
        }
    }
    let len = cs.len();
    if len < 5 {
        proof {
            if active {
                assert(false);
            }
        }
        return None;
    }
    if !(cs[0] == 't' && cs[1] == 'i' && cs[2] == 'l' && cs[3] == 'e' && cs[4] == '/') {
        proof {
            if active {
                assert(false);
            }
        }
        return None;
    }
    proof {
        if active {
            assert(dec_at(cs@, 5, w.height));
        }
    }
    let (height, mut pos): (usize, usize) = match parse_num(cs, 5) {
        Some(pr) => pr,
        None => {
            proof {
                if active {
                    assert(false);
                }
            }
            return None;
        },
    };
    if height < 1 || height > 30 {
        proof {
            if active {
                assert(false);
            }
        }
        return None;
    }
    if pos >= len || cs[pos] != '/' {
        proof {
            if active {
                assert(false);
            }
        }
        return None;
    }
    pos = pos + 1;
    let mut level: isize = -1;
    proof {
        if active {
            if w.level != -1 {
                assert(cs@.subrange(lp0, lp1)[0] == cs@[lp0]);
                assert(is_digit_char(cs@[lp0]));
                assert(dec_at(cs@, lp0, w.level as nat));
            } else {
                assert(cs@.subrange(lp0, lp1)[0] == cs@[lp0]);
                assert(cs@.subrange(lp0, lp1)[1] == cs@[lp0 + 1]);
                assert(cs@.subrange(lp0, lp1)[2] == cs@[lp0 + 2]);
                assert(cs@.subrange(lp0, lp1)[3] == cs@[lp0 + 3]);
            }
        }
    }
    if len - pos >= 4 && cs[pos] == 'd' && cs[pos + 1] == 'a' && cs[pos + 2] == 't' && cs[pos + 3]
        == 'a' {
        proof {
            if active {
                assert(w.level == -1);
            }
        }
        pos = pos + 4;
    } else {
        let (lvl, pos2): (usize, usize) = match parse_num(cs, pos) {
            Some(pr) => pr,
            None => {
                proof {
                    if active {
                        assert(false);
                    }
                }
                return None;
            },
        };
        if lvl > 63 {
            proof {
                if active {
                    assert(false);
                }
            }
            return None;
        }
        level = lvl as isize;
        pos = pos2;
    }
    if pos >= len || cs[pos] != '/' {
        proof {
            if active {
                assert(false);
            }
        }
        return None;
    }
    pos = pos + 1;
    Some((height, level, pos))
}

impl Tile {
    /// Parses a tile coordinate path, the exact inverse of [`Tile::path`]:
    /// returns the tile whose path is byte-for-byte the given text — and
    /// succeeds on every such text whose tile number fits a word — and
    /// returns `None` for any malformed or non-canonical text.
    #[verifier::loop_isolation(false)]
    #[verifier::rlimit(100)]
    pub fn parse(path: &str) -> (r: Option<Tile>)
        ensures
            r matches Some(t) ==> t.wf() && path@ == tile_path_spec(t@),
            (exists|t: TileSpec|
                tile_spec_wf(t) && t.n <= usize::MAX as nat && path@ == tile_path_spec(t))
                ==> r is Some,
    {
        let ghost has_w = exists|t: TileSpec|
            tile_spec_wf(t) && t.n <= usize::MAX as nat && path@ == tile_path_spec(t);
        let ghost w: TileSpec = choose|t: TileSpec|
            tile_spec_wf(t) && t.n <= usize::MAX as nat && path@ == tile_path_spec(t);
        let ghost hp1: int = 5 + dec_str(w.height).len() as int;
        let ghost lp0: int = hp1 + 1;
        let ghost lp1: int = lp0 + level_seg(w).len() as int;
        let ghost g0: int = lp1 + 1;
        let ghost g1: int = g0 + path_groups(w.n).len() as int;
        let n_chars = path.unicode_len();
        let mut cs: Vec<char> = Vec::new();
        let mut i: usize = 0;
        while i < n_chars
            invariant
                i <= n_chars,
                n_chars == path@.len(),
                cs@ == path@.subrange(0, i as int),
            decreases n_chars - i,
        {
            cs.push(path.get_char(i));
            i = i + 1;
            proof {
                assert(cs@ =~= path@.subrange(0, i as int));
            }
        }
        proof {
            assert(cs@ =~= path@);
            if has_w {
                lemma_tile_path_segments(cs@, w);
                if w.width != pow2(w.height) {
                    lemma_dec_str_digits(w.width);
                }
                lemma_path_groups_chars(w.n);
            }
        }
        let len = cs.len();
        let (height, level, pos): (usize, isize, usize) = match parse_header(
            &cs,
            Ghost(has_w),
            Ghost(w),
        ) {
            Some(tr) => tr,
            None => {
                proof {
                    if has_w {
                        assert(false);
                    }
                }
                return None;
            },
        };
        let gstart = pos;
        proof {
            if has_w {
                assert(gstart as int == g0);
            }
        }
        // The group region runs to the first dot (the partial-width suffix)
        // or to the end of the text.
        let mut gend: usize = gstart;
        while gend < len && cs[gend] != '.'
            invariant
                gstart <= gend <= len,
                forall|i: int| gstart <= i < gend ==> (#[trigger] cs@[i]) != '.',
            decreases len - gend,
        {
            gend = gend + 1;
        }
        proof {
            if has_w {
                assert forall|i: int| g0 <= i < g1 implies (#[trigger] cs@[i]) != '.' by {
                    assert(cs@.subrange(g0, g1)[i - g0] == cs@[i]);
                }
                if (gend as int) < g1 {
                    assert(cs@[gend as int] != '.');
                    assert(false);
                }
                if (gend as int) > g1 {
                    assert(g1 < cs@.len());
                    assert(cs@.subrange(g1, cs@.len() as int)[0] == cs@[g1]);
                    assert(cs@[g1] == '.');
                    assert(false);
                }
                assert(gend as int == g1);
                assert(cs@.subrange(gstart as int, gend as int) == path_groups(w.n));
            }
        }
        let n = match parse_group_run(&cs, gstart, gend, Ghost(has_w), Ghost(w.n)) {
            Some(n) => n,
            None => {
                proof {
                    if has_w {
                        assert(false);
                    }
                }
                return None;
            },
        };
        proof {
            lemma_pow2_consts();
            lemma_pow2_mono(height as nat, 30);
        }
        let width: usize;
        if gend == len {
            proof {
                if has_w {
                    assert(width_seg(w).len() == 0);
                    assert(w.width == pow2(w.height));
                }
            }
            width = pow2_exec(height);
        } else {
            proof {
                if has_w {
                    assert(width_seg(w).len() > 0);
                    assert(width_seg(w) == seq!['.', 'p', '/'] + dec_str(w.width));
                    assert forall|i: int| g1 <= i < cs@.len() implies cs@[i] == width_seg(w)[i
                        - g1] by {
                        assert(cs@.subrange(g1, cs@.len() as int)[i - g1] == cs@[i]);
                    }
                    assert(cs@.subrange(g1 + 3, cs@.len() as int) =~= dec_str(w.width));
                    lemma_pow2_mono(w.height, 30);
                    assert(dec_at(cs@, g1 + 3, w.width));
                }
            }
            if len - gend < 3 || cs[gend] != '.' || cs[gend + 1] != 'p' || cs[gend + 2] != '/' {
                proof {
                    if has_w {
                        assert(false);
                    }
                }
                return None;
            }
            let (wd, pos2): (usize, usize) = match parse_num(&cs, gend + 3) {
                Some(pr) => pr,
                None => {
                    proof {
                        if has_w {
                            assert(false);
                        }
                    }
                    return None;
                },
            };
            if pos2 != len {
                proof {
                    if has_w {
                        assert(false);
                    }
                }
                return None;
            }
            width = wd;
        }
        let t = match Tile::new(height, level, n, width) {
            Some(t) => t,
            None => {
                proof {
                    if has_w {
                        assert(height as nat == w.height && level as int == w.level && n as nat
                            == w.n && width as nat == w.width);
                        assert(false);
                    }
                }
                return None;
            },
        };
        proof {
            if has_w {
                assert(t@ == w);
            }
        }
        // The candidate is accepted exactly when it re-encodes to the input,
        // so whatever the scan above tolerated, a returned tile's path is
        // the given text.
        let encoded = t.path();
        let given = String::from_str(path);
        if encoded == given {
            Some(t)
        } else {
            proof {
                if has_w {
                    assert(encoded@ == given@);
                    assert(false);
                }
            }
            None
        }
    }
}

/// Whether `c` is a decimal digit character.
pub open spec fn is_digit_char(c: char) -> bool {
    c == '0' || c == '1' || c == '2' || c == '3' || c == '4' || c == '5' || c == '6' || c == '7'
        || c == '8' || c == '9'
}

proof fn lemma_digit_char_is_digit(d: nat)
    ensures
        is_digit_char(digit_char_spec(d)),
{
}

proof fn lemma_digit_char_injective(d1: nat, d2: nat)
    requires
        d1 < 10,
        d2 < 10,
        digit_char_spec(d1) == digit_char_spec(d2),
    ensures
        d1 == d2,
{
}

proof fn lemma_dec_str_digits(n: nat)
    ensures
        forall|i: int| 0 <= i < dec_str(n).len() ==> is_digit_char(#[trigger] dec_str(n)[i]),
        dec_str(n).len() >= 1,
        (dec_str(n).len() == 1) <==> n < 10,
    decreases n,
{
    if n >= 10 {
        lemma_dec_str_digits(n / 10);
    }
}

proof fn lemma_dec_str_injective(n1: nat, n2: nat)
    requires
        dec_str(n1) == dec_str(n2),
    ensures
        n1 == n2,
    decreases n1,
{
    lemma_dec_str_digits(n1);
    lemma_dec_str_digits(n2);
    let s1 = dec_str(n1);
    let s2 = dec_str(n2);
    if n1 < 10 && n2 < 10 {
        assert(s1[0] == digit_char_spec(n1));
        assert(s2[0] == digit_char_spec(n2));
        lemma_digit_char_injective(n1, n2);
    } else if n1 >= 10 && n2 >= 10 {
        assert(s1[s1.len() - 1] == digit_char_spec(n1 % 10));
        assert(s2[s2.len() - 1] == digit_char_spec(n2 % 10));
        lemma_digit_char_injective(n1 % 10, n2 % 10);
        assert(dec_str(n1 / 10) =~= s1.subrange(0, s1.len() - 1));
        assert(dec_str(n2 / 10) =~= s2.subrange(0, s2.len() - 1));
        lemma_dec_str_injective(n1 / 10, n2 / 10);
    }
}

/// Cancelling a shared prefix of a sequence equation.
proof fn lemma_concat_cancel_prefix(p: Seq<char>, r1: Seq<char>, r2: Seq<char>)
    requires
        p + r1 == p + r2,
    ensures
        r1 == r2,
{
    assert((p + r1).len() == p.len() + r1.len());
    assert((p + r2).len() == p.len() + r2.len());
    assert(r1.len() == r2.len());
    assert forall|i: int| 0 <= i < r1.len() implies r1[i] == r2[i] by {
        assert((p + r1)[p.len() + i] == r1[i]);
        assert((p + r2)[p.len() + i] == r2[i]);
    }
    assert(r1 =~= r2);
}

/// Splitting a sequence equation at a separator character that occurs in
/// neither left part.
proof fn lemma_sep_split(a1: Seq<char>, r1: Seq<char>, a2: Seq<char>, r2: Seq<char>, sep: char)
    requires
        a1 + seq![sep] + r1 == a2 + seq![sep] + r2,
        forall|i: int| 0 <= i < a1.len() ==> (#[trigger] a1[i]) != sep,
        forall|i: int| 0 <= i < a2.len() ==> (#[trigger] a2[i]) != sep,
    ensures
        a1 == a2,
        r1 == r2,
{
    let s = a1 + seq![sep] + r1;
    if a1.len() < a2.len() {
        assert(s[a1.len() as int] == sep);
        assert(s[a1.len() as int] == a2[a1.len() as int]);
        assert(false);
    }
    if a2.len() < a1.len() {
        assert(s[a2.len() as int] == sep);
        assert(s[a2.len() as int] == a1[a2.len() as int]);
        assert(false);
    }
    assert forall|i: int| 0 <= i < a1.len() implies a1[i] == a2[i] by {
        assert(((a1 + seq![sep]) + r1)[i] == (a1 + seq![sep])[i]);
        assert((a1 + seq![sep])[i] == a1[i]);
        assert(((a2 + seq![sep]) + r2)[i] == (a2 + seq![sep])[i]);
        assert((a2 + seq![sep])[i] == a2[i]);
    }
    assert(a1 =~= a2);
    assert((a1 + seq![sep]) + r1 =~= a1 + seq![sep] + r1);
    assert((a2 + seq![sep]) + r2 =~= a2 + seq![sep] + r2);
    lemma_concat_cancel_prefix(a1 + seq![sep], r1, r2);
}

/// Splitting a sequence equation where the left parts draw on group
/// characters and the right parts are empty or start with a dot.
proof fn lemma_dot_split(g1: Seq<char>, s1: Seq<char>, g2: Seq<char>, s2: Seq<char>)
    requires
        g1 + s1 == g2 + s2,
        forall|i: int| 0 <= i < g1.len() ==> (#[trigger] g1[i]) != '.',
        forall|i: int| 0 <= i < g2.len() ==> (#[trigger] g2[i]) != '.',
        s1.len() > 0 ==> s1[0] == '.',
        s2.len() > 0 ==> s2[0] == '.',
    ensures
        g1 == g2,
        s1 == s2,
{
    let s = g1 + s1;
    if g1.len() < g2.len() {
        assert(s1.len() > 0);
        assert(s[g1.len() as int] == s1[0]);
        assert(s[g1.len() as int] == g2[g1.len() as int]);
        assert(false);
    }
    if g2.len() < g1.len() {
        assert(s2.len() > 0);
        assert(s[g2.len() as int] == s2[0]);
        assert(s[g2.len() as int] == g1[g2.len() as int]);
        assert(false);
    }
    assert forall|i: int| 0 <= i < g1.len() implies g1[i] == g2[i] by {
        assert((g1 + s1)[i] == g1[i]);
        assert((g2 + s2)[i] == g2[i]);
    }
    assert(g1 =~= g2);
    lemma_concat_cancel_prefix(g1, s1, s2);
}

proof fn lemma_pad3_digits(m: nat)
    ensures
        pad3(m).len() == 3,
        forall|i: int| 0 <= i < 3 ==> is_digit_char(#[trigger] pad3(m)[i]),
{
    lemma_digit_char_is_digit(m / 100 % 10);
    lemma_digit_char_is_digit(m / 10 % 10);
    lemma_digit_char_is_digit(m % 10);
}

proof fn lemma_pad3_injective(m1: nat, m2: nat)
    requires
        m1 < 1000,
        m2 < 1000,
        pad3(m1) == pad3(m2),
    ensures
        m1 == m2,
{
    assert(pad3(m1)[0] == pad3(m2)[0]);
    assert(pad3(m1)[1] == pad3(m2)[1]);
    assert(pad3(m1)[2] == pad3(m2)[2]);
    lemma_digit_char_injective(m1 / 100 % 10, m2 / 100 % 10);
    lemma_digit_char_injective(m1 / 10 % 10, m2 / 10 % 10);
    lemma_digit_char_injective(m1 % 10, m2 % 10);
}

proof fn lemma_prefix_groups_shape(m: nat)
    ensures
        prefix_groups(m).len() % 5 == 0,
        m > 0 ==> prefix_groups(m).len() >= 5,
    decreases m,
{
    if m > 0 {
        lemma_prefix_groups_shape(m / 1000);
    }
}

proof fn lemma_prefix_groups_injective(m1: nat, m2: nat)
    requires
        prefix_groups(m1) == prefix_groups(m2),
    ensures
        m1 == m2,
    decreases m1,
{
    lemma_prefix_groups_shape(m1);
    lemma_prefix_groups_shape(m2);
    if m1 > 0 && m2 > 0 {
        let s1 = prefix_groups(m1);
        let s2 = prefix_groups(m2);
        let l = s1.len();
        lemma_pad3_digits(m1 % 1000);
        lemma_pad3_digits(m2 % 1000);
        assert(pad3(m1 % 1000) =~= s1.subrange(l - 4, l - 1));
        assert(pad3(m2 % 1000) =~= s2.subrange(l - 4, l - 1));
        lemma_pad3_injective(m1 % 1000, m2 % 1000);
        assert(prefix_groups(m1 / 1000) =~= s1.subrange(0, l - 5));
        assert(prefix_groups(m2 / 1000) =~= s2.subrange(0, l - 5));
        lemma_prefix_groups_injective(m1 / 1000, m2 / 1000);
    }
}

proof fn lemma_path_groups_injective(n1: nat, n2: nat)
    requires
        path_groups(n1) == path_groups(n2),
    ensures
        n1 == n2,
{
    lemma_prefix_groups_shape(n1 / 1000);
    lemma_prefix_groups_shape(n2 / 1000);
    lemma_pad3_digits(n1 % 1000);
    lemma_pad3_digits(n2 % 1000);
    let s1 = path_groups(n1);
    let s2 = path_groups(n2);
    let l = s1.len();
    assert(prefix_groups(n1 / 1000).len() == l - 3);
    assert(prefix_groups(n2 / 1000).len() == l - 3) by {
        assert(s2.len() == l);
    }
    assert(pad3(n1 % 1000) =~= s1.subrange(l - 3, l as int));
    assert(pad3(n2 % 1000) =~= s2.subrange(l - 3, l as int));
    lemma_pad3_injective(n1 % 1000, n2 % 1000);
    assert(prefix_groups(n1 / 1000) =~= s1.subrange(0, l - 3));
    assert(prefix_groups(n2 / 1000) =~= s2.subrange(0, l - 3));
    lemma_prefix_groups_injective(n1 / 1000, n2 / 1000);
}

proof fn lemma_path_groups_chars(n: nat)
    ensures
        forall|i: int|
            0 <= i < path_groups(n).len() ==> (is_digit_char(#[trigger] path_groups(n)[i])
                || path_groups(n)[i] == 'x' || path_groups(n)[i] == '/'),
{
    lemma_prefix_groups_chars(n / 1000);
    lemma_pad3_digits(n % 1000);
}

proof fn lemma_prefix_groups_chars(m: nat)
    ensures
        forall|i: int|
            0 <= i < prefix_groups(m).len() ==> (is_digit_char(#[trigger] prefix_groups(m)[i])
                || prefix_groups(m)[i] == 'x' || prefix_groups(m)[i] == '/'),
    decreases m,
{
    if m > 0 {
        lemma_prefix_groups_chars(m / 1000);
        lemma_pad3_digits(m % 1000);
        let a = prefix_groups(m / 1000);
        let l = a.len() as int;
        let g = pad3(m % 1000);
        let s = prefix_groups(m);
        assert forall|i: int|
            0 <= i < s.len() implies (is_digit_char(#[trigger] s[i]) || s[i] == 'x' || s[i]
                == '/') by {
            assert(s == ((a + seq!['x']) + g) + seq!['/']);
            if i < l {
                assert(s[i] == a[i]);
            } else if i == l {
                assert(s[i] == 'x');
            } else if i < l + 4 {
                assert(s[i] == g[i - l - 1]);
            } else {
                assert(s[i] == '/');
            }
        }
    }
}

/// Law: the path encoding is injective on well-formed tiles — two distinct
/// tiles never share a coordinate path. Together with the postcondition of
/// [`Tile::parse`] — that a returned tile re-encodes byte-for-byte to the
/// given text — a successful parse of `t.path()` can only return `t`.
#[verifier::rlimit(80)]
pub proof fn lemma_tile_path_injective(t1: TileSpec, t2: TileSpec)
    requires
        tile_spec_wf(t1),
        tile_spec_wf(t2),
        tile_path_spec(t1) == tile_path_spec(t2),
    ensures
        t1 == t2,
{
    let head = seq!['t', 'i', 'l', 'e', '/'];
    let lvl1 = if t1.level == -1 {
        seq!['d', 'a', 't', 'a']
    } else {
        dec_str(t1.level as nat)
    };
    let lvl2 = if t2.level == -1 {
        seq!['d', 'a', 't', 'a']
    } else {
        dec_str(t2.level as nat)
    };
    let suf1 = if t1.width != pow2(t1.height) {
        seq!['.', 'p', '/'] + dec_str(t1.width)
    } else {
        Seq::<char>::empty()
    };
    let suf2 = if t2.width != pow2(t2.height) {
        seq!['.', 'p', '/'] + dec_str(t2.width)
    } else {
        Seq::<char>::empty()
    };
    let gs1 = path_groups(t1.n) + suf1;
    let gs2 = path_groups(t2.n) + suf2;
    let tail1 = lvl1 + seq!['/'] + gs1;
    let tail2 = lvl2 + seq!['/'] + gs2;
    let rest1 = dec_str(t1.height) + seq!['/'] + tail1;
    let rest2 = dec_str(t2.height) + seq!['/'] + tail2;
    assert(tile_path_spec(t1) =~= head + rest1);
    assert(tile_path_spec(t2) =~= head + rest2);
    lemma_concat_cancel_prefix(head, rest1, rest2);
    lemma_dec_str_digits(t1.height);
    lemma_dec_str_digits(t2.height);
    lemma_sep_split(dec_str(t1.height), tail1, dec_str(t2.height), tail2, '/');
    lemma_dec_str_injective(t1.height, t2.height);
    if t1.level != -1 {
        lemma_dec_str_digits(t1.level as nat);
    }
    if t2.level != -1 {
        lemma_dec_str_digits(t2.level as nat);
    }
    lemma_sep_split(lvl1, gs1, lvl2, gs2, '/');
    if t1.level == -1 && t2.level != -1 {
        assert(lvl1[0] == 'd');
        assert(is_digit_char(lvl2[0]));
        assert(false);
    }
    if t1.level != -1 && t2.level == -1 {
        assert(lvl2[0] == 'd');
        assert(is_digit_char(lvl1[0]));
        assert(false);
    }
    if t1.level != -1 && t2.level != -1 {
        lemma_dec_str_injective(t1.level as nat, t2.level as nat);
    }
    lemma_path_groups_chars(t1.n);
    lemma_path_groups_chars(t2.n);
    assert(suf1.len() > 0 ==> suf1[0] == '.');
    assert(suf2.len() > 0 ==> suf2[0] == '.');
    lemma_dot_split(path_groups(t1.n), suf1, path_groups(t2.n), suf2);
    lemma_path_groups_injective(t1.n, t2.n);
    if t1.width != pow2(t1.height) && t2.width != pow2(t2.height) {
        lemma_concat_cancel_prefix(
            seq!['.', 'p', '/'],
            dec_str(t1.width),
            dec_str(t2.width),
        );
        assert(suf1 =~= seq!['.', 'p', '/'] + dec_str(t1.width));
        lemma_dec_str_injective(t1.width, t2.width);
    }
    if t1.width == pow2(t1.height) && t2.width != pow2(t2.height) {
        assert(suf2.len() >= 3);
        assert(false);
    }
    if t1.width != pow2(t1.height) && t2.width == pow2(t2.height) {
        assert(suf1.len() >= 3);
        assert(false);
    }
}

} // verus!
