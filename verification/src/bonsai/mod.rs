//! Growing a bonsai: the branches, their state and the tree they leave.

pub mod rng;
pub mod utility;

use vstd::prelude::*;

verus! {

/// The kinds of branch that the growth distinguishes.
pub enum BranchType {
    /// The main trunk of the tree
    Trunk,
    /// A branch that grows to the left
    ShootLeft,
    /// A branch that grows to the right
    ShootRight,
    /// A branch at the very end of its life
    Dead,
    /// A branch close to the end of its life
    Dying,
}

} // verus!

use rand::rngs::StdRng;
use self::rng::{gen_i32, gen_range};
use self::utility::{
    choose_color, choose_string, deltas_possible, glyph_for, lemma_possible_steps_in_range,
    set_deltas, sprout_for_rolls, sprout_from_rolls, sprout_rolls_in_range, step_in_range,
    style_possible, Style,
};

verus! {

/// A cell position on the terminal, column `x` and row `y`.
#[derive(Copy, Clone)]
pub struct Position {
    pub x: i32,
    pub y: i32,
}

/// What the growth is told: the terminal's size, the life of the trunk and the
/// branch multiplier (higher, fewer branches).
pub struct TreeConfig {
    pub max_x: u16,
    pub max_y: u16,
    pub life: i32,
    pub multiplier: i32,
}

/// One glyph of the grown tree, with the state of its branch when it was left.
pub struct Val {
    pub style: Style,
    pub char: String,
    pub pos: Position,
    pub dx: i32,
    pub dy: i32,
    pub life: i32,
    pub branch_type: String,
    pub shoots: i32,
    pub shoot_cooldown: i32,
}

/// Counters shared by all branches of one tree.
struct Counters {
    shoots: i32,
    branches: i32,
    shoot_counter: i32,
    tree_bottom: u16,
}

/// The name under which a branch type is recorded in a `Val`.
pub open spec fn kind_name(bt: BranchType) -> Seq<char> {
    match bt {
        BranchType::Trunk => "Trunk"@,
        BranchType::ShootLeft => "ShootLeft"@,
        BranchType::ShootRight => "ShootRight"@,
        BranchType::Dying => "Dying"@,
        BranchType::Dead => "Dead"@,
    }
}

/// The cell `(x, y)` is on the terminal as the growth tests it: both
/// coordinates are non-negative and, taken as `u16`, below the terminal's size.
pub open spec fn on_terminal(x: int, y: int, config: TreeConfig) -> bool {
    &&& 0 <= x && (x as u16) < config.max_x
    &&& 0 <= y && (y as u16) < config.max_y
}

/// `pos` lies on the terminal as the growth tests it.
pub open spec fn in_bounds(pos: Position, config: TreeConfig) -> bool {
    on_terminal(pos.x as int, pos.y as int, config)
}

/// The cell `(x, y)` lies on the terminal by plain comparison.
pub open spec fn plainly_on_terminal(x: int, y: int, config: TreeConfig) -> bool {
    &&& 0 <= x < config.max_x
    &&& 0 <= y < config.max_y
}

/// `(dx, dy)` is the step that a branch takes from row `from_y`: a step of the
/// movement rule, except that a downward step is lowered by one row when the
/// branch is below `bottom - 1`.
pub open spec fn step_fits(
    bt: BranchType,
    life: int,
    age: int,
    multiplier: int,
    bottom: int,
    from_y: int,
    dx: int,
    dy: int,
) -> bool {
    if from_y > bottom - 1 {
        (dy <= 0 && deltas_possible(bt, life, age, multiplier, dx, dy)) || (dy >= 0
            && deltas_possible(bt, life, age, multiplier, dx, dy + 1))
    } else {
        deltas_possible(bt, life, age, multiplier, dx, dy)
    }
}

/// `v` is a glyph that a branch of type `bt` can leave in a tree grown with
/// `config` and bottom row `bottom`: drawn on the terminal, grown from a cell on
/// the terminal, named after its type, with the glyph, style and step that the
/// rules give for its life and age.
pub open spec fn grown_as(v: Val, bt: BranchType, config: TreeConfig, bottom: int) -> bool {
    let from_x = v.pos.x - v.dx;
    let from_y = v.pos.y - v.dy;
    &&& on_terminal(v.pos.x as int, v.pos.y as int, config)
    &&& on_terminal(from_x, from_y, config)
    &&& v.branch_type@ == kind_name(bt)
    &&& v.char@ == glyph_for(bt, v.life as int, v.dx as int, v.dy as int)
    &&& style_possible(bt, v.style)
    &&& step_fits(
        bt,
        v.life as int,
        config.life - v.life,
        config.multiplier as int,
        bottom,
        from_y,
        v.dx as int,
        v.dy as int,
    )
    &&& v.life >= 0
}

/// `v` is a glyph that some branch can leave in a tree grown with `config`.
pub open spec fn well_grown(v: Val, config: TreeConfig, bottom: int) -> bool {
    ||| grown_as(v, BranchType::Trunk, config, bottom)
    ||| grown_as(v, BranchType::ShootLeft, config, bottom)
    ||| grown_as(v, BranchType::ShootRight, config, bottom)
    ||| grown_as(v, BranchType::Dying, config, bottom)
    ||| grown_as(v, BranchType::Dead, config, bottom)
}

/// Branches of type `child` grow, directly or further down, out of a branch of
/// type `parent`: a trunk starts any kind, a shoot starts dying and dead
/// branches, a dying branch dead ones.
pub open spec fn may_leave(parent: BranchType, child: BranchType) -> bool {
    match parent {
        BranchType::Trunk => true,
        BranchType::ShootLeft => child is ShootLeft || child is Dying || child is Dead,
        BranchType::ShootRight => child is ShootRight || child is Dying || child is Dead,
        BranchType::Dying => child is Dying || child is Dead,
        BranchType::Dead => child is Dead,
    }
}

/// `v` is a glyph that the growth of a branch of type `parent` can leave.
pub open spec fn grown_from(v: Val, parent: BranchType, config: TreeConfig, bottom: int) -> bool {
    ||| may_leave(parent, BranchType::Trunk) && grown_as(v, BranchType::Trunk, config, bottom)
    ||| may_leave(parent, BranchType::ShootLeft) && grown_as(v, BranchType::ShootLeft, config, bottom)
    ||| may_leave(parent, BranchType::ShootRight) && grown_as(v, BranchType::ShootRight, config, bottom)
    ||| may_leave(parent, BranchType::Dying) && grown_as(v, BranchType::Dying, config, bottom)
    ||| may_leave(parent, BranchType::Dead) && grown_as(v, BranchType::Dead, config, bottom)
}

/// Shoots alternate: a shoot's glyph records the shoot count when it was left,
/// and with `offset` the difference of the shoot counter and the shoot count,
/// shoots with an even counter grow left and the others right.
pub open spec fn shoot_side_ok(v: Val, offset: int) -> bool {
    &&& v.branch_type@ == kind_name(BranchType::ShootLeft) ==> (offset + v.shoots) % 2 == 0
    &&& v.branch_type@ == kind_name(BranchType::ShootRight) ==> (offset + v.shoots) % 2 != 0
}

/// The most glyphs that a dead or dying branch with `life` steps leaves,
/// counting the dead branches it starts.
pub open spec fn dead_glyph_bound(life: int) -> int {
    if life <= 0 {
        0
    } else if life == 1 {
        1
    } else if life == 2 {
        3
    } else {
        life + 4
    }
}

/// The glyphs of `tree` from index `from` on record shoot counts that never decrease.
pub open spec fn shoots_ordered(tree: Seq<Val>, from: int) -> bool {
    forall|i: int, j: int|
        #![trigger tree[i], tree[j]]
        from <= i <= j < tree.len() ==> tree[i].shoots <= tree[j].shoots
}

/// A position whose coordinates convert to `u16` exactly.
pub open spec fn in_window(pos: Position) -> bool {
    &&& -3 <= pos.x <= 65535
    &&& -3 <= pos.y <= 65535
}

/// A start at which the `u16` tests of the growth are plain comparisons:
/// a terminal at most 65532 cells wide and high, and a start position in the window.
pub open spec fn plain_start(pos: Position, config: TreeConfig) -> bool {
    &&& in_window(pos)
    &&& config.max_x <= 65532
    &&& config.max_y <= 65532
}

/// A start from which a branch surely leaves a glyph: well inside the terminal,
/// with life left, and a configuration whose first step cannot overflow.
pub open spec fn starts_growing(pos: Position, life: int, config: TreeConfig) -> bool {
    &&& life > 0
    &&& 3 <= pos.x < config.max_x - 3
    &&& 1 <= pos.y < config.max_y - 1
    &&& 1 <= config.life
    &&& config.multiplier != 0
    &&& -0x2000_0000 <= config.multiplier <= 0x2000_0000
}

/// What holds of each glyph that a branch of type `bt` appends.
spec fn glyph_ok(v: Val, bt: BranchType, config: TreeConfig, bottom: int, offset: int, plain: bool) -> bool {
    &&& grown_from(v, bt, config, bottom)
    &&& bt is Trunk ==> shoot_side_ok(v, offset)
    &&& plain ==> plainly_on_terminal(v.pos.x as int, v.pos.y as int, config)
        && plainly_on_terminal(v.pos.x - v.dx, v.pos.y - v.dy, config)
}

/// Where the branch stood before its `k`-th glyph of the path `own`: its start
/// for the first, the previous glyph's position after that.
pub open spec fn path_prev_pos(tree: Seq<Val>, own: Seq<int>, k: int, pos: Position) -> Position {
    if k == 0 {
        pos
    } else {
        tree[own[k - 1]].pos
    }
}

/// The branch's shoot cooldown before its `k`-th glyph: the multiplier at the
/// start, the previous glyph's recorded cooldown after that.
pub open spec fn path_prev_cooldown(tree: Seq<Val>, own: Seq<int>, k: int, multiplier: int) -> int {
    if k == 0 {
        multiplier
    } else {
        tree[own[k - 1]].shoot_cooldown as int
    }
}

/// The `k`-th glyph of the path `own` is the branch's `k`-th step: named after
/// its type, with `life - 1 - k` steps left, grown from where the branch
/// stood, and a cooldown one below the one before (or, for a trunk, one below
/// twice the multiplier, after a reset).
pub open spec fn step_on_path(
    tree: Seq<Val>,
    own: Seq<int>,
    k: int,
    bt: BranchType,
    pos: Position,
    life: int,
    config: TreeConfig,
) -> bool {
    let v = tree[own[k]];
    let prev = path_prev_pos(tree, own, k, pos);
    let prev_cooldown = path_prev_cooldown(tree, own, k, config.multiplier as int);
    &&& v.branch_type@ == kind_name(bt)
    &&& v.life == life - 1 - k
    &&& v.pos.x - v.dx == prev.x
    &&& v.pos.y - v.dy == prev.y
    &&& (v.shoot_cooldown + 1 == prev_cooldown || (bt is Trunk && v.shoot_cooldown + 1 == 2
        * config.multiplier))
}

/// `own` lists, in order, indices of `tree` from `start` on that hold the
/// glyphs that a branch of type `bt` started at `pos` with `life` left on its
/// own steps.
pub open spec fn own_path(
    tree: Seq<Val>,
    start: int,
    own: Seq<int>,
    bt: BranchType,
    pos: Position,
    life: int,
    config: TreeConfig,
) -> bool {
    &&& forall|k: int| #![trigger own[k]] 0 <= k < own.len() ==> start <= own[k] < tree.len()
    &&& forall|j: int, k: int| #![trigger own[j], own[k]] 0 <= j < k < own.len() ==> own[j] < own[k]
    &&& forall|k: int|
        0 <= k < own.len() ==> #[trigger] step_on_path(tree, own, k, bt, pos, life, config)
}

/// Where the branch stands after the steps of the path `own`.
pub open spec fn path_end(tree: Seq<Val>, own: Seq<int>, pos: Position) -> Position {
    if own.len() == 0 {
        pos
    } else {
        tree[own.last()].pos
    }
}

/// A step that a branch of type `bt` with `life` left after it can take from `p`
/// leads off the terminal.
pub open spec fn can_leave(bt: BranchType, p: Position, life: int, config: TreeConfig, bottom: int) -> bool {
    exists|dx: int, dy: int|
        #![trigger step_fits(bt, life, config.life - life, config.multiplier as int, bottom, p.y as int, dx, dy)]
        step_fits(bt, life, config.life - life, config.multiplier as int, bottom, p.y as int, dx, dy)
            && !on_terminal(p.x + dx, p.y + dy, config)
}

/// A start from which no step of the branch can overflow: a configuration of
/// moderate life and multiplier, and a start at which the `u16` tests are plain.
pub open spec fn steps_safely(pos: Position, life: int, config: TreeConfig) -> bool {
    &&& 1 <= config.life
    &&& config.multiplier != 0
    &&& -0x2000_0000 <= config.multiplier <= 0x2000_0000
    &&& life <= 0x2000_0000
    &&& plain_start(pos, config)
}

/// The path `own` is all of the branch's steps, where no step can overflow:
/// the branch took every step of its life, or started off the terminal, or
/// its next step could lead off the terminal (where it stops).
pub open spec fn path_complete(
    tree: Seq<Val>,
    own: Seq<int>,
    bt: BranchType,
    pos: Position,
    life: int,
    config: TreeConfig,
    bottom: int,
) -> bool {
    steps_safely(pos, life, config) ==> {
        ||| own.len() == (if life > 0 { life } else { 0 })
        ||| own.len() == 0 && !in_bounds(pos, config)
        ||| own.len() < life && can_leave(bt, path_end(tree, own, pos), life - 1 - own.len(), config, bottom)
    }
}

/// A branch of type `bt` started at `pos` with `life` left has left its own
/// path of glyphs in `tree` from `start` on.
pub open spec fn branch_path(
    tree: Seq<Val>,
    start: int,
    bt: BranchType,
    pos: Position,
    life: int,
    config: TreeConfig,
    bottom: int,
) -> bool {
    exists|own: Seq<int>|
        #![trigger own_path(tree, start, own, bt, pos, life, config)]
        own_path(tree, start, own, bt, pos, life, config) && path_complete(
            tree,
            own,
            bt,
            pos,
            life,
            config,
            bottom,
        )
}

/// Where the glyphs of a step's sub-branch begin: at `start` for the first
/// step, right after the previous step's glyph otherwise.
pub open spec fn region_start(own: Seq<int>, k: int, start: int) -> int {
    if k == 0 {
        start
    } else {
        own[k - 1] + 1
    }
}

/// Where the glyphs of a step's sub-branch end: at the step's own glyph, or at
/// `end` for a last step that left none.
pub open spec fn region_end(own: Seq<int>, k: int, end: int) -> int {
    if k < own.len() {
        own[k]
    } else {
        end
    }
}

/// What a decision about sub-branches came to: the branch stops as decided,
/// the cooldown is the decided one, and either the decided sub-branch grew
/// its path in `tree` from `from` on and was counted with everything it
/// started (exactly one branch for a sub-branch without life; one more shoot
/// for a shoot, none for a dying or dead branch), or no glyph was left between
/// `from` and `to` and the counts stayed.
pub open spec fn sprout_result(
    decision: (bool, Option<(BranchType, int)>, int),
    tree: Seq<Val>,
    from: int,
    to: int,
    pos: Position,
    config: TreeConfig,
    bottom: int,
    branches: int,
    shoots: int,
    branches_after: int,
    shoots_after: int,
    cooldown_after: int,
    stop: bool,
) -> bool {
    &&& stop == decision.0
    &&& cooldown_after == decision.2
    &&& match decision.1 {
        Some((t, l)) => {
            &&& branch_path(tree, from, t, pos, l, config, bottom)
            &&& branches < branches_after
            &&& l <= 0 ==> branches_after == branches + 1
            &&& t is Trunk ==> shoots <= shoots_after
            &&& (t is ShootLeft || t is ShootRight) ==> shoots_after == shoots + 1
            &&& (t is Dying || t is Dead) ==> shoots_after == shoots
        },
        None => {
            &&& to == from
            &&& branches_after == branches
            &&& shoots_after == shoots
        },
    }
}

/// One step of a branch of type `bt` with `life` left after it, at `pos`, with
/// cooldown `cooldown` and the counts `branches` and `shoots` (the shoot
/// counter `offset` above the shoots), decided about sub-branches for draws
/// it can make, and it came to `sprout_result`.
pub open spec fn sprouted(
    tree: Seq<Val>,
    from: int,
    to: int,
    bt: BranchType,
    life: int,
    config: TreeConfig,
    bottom: int,
    pos: Position,
    cooldown: int,
    branches: int,
    shoots: int,
    offset: int,
    branches_after: int,
    shoots_after: int,
    cooldown_after: int,
    stop: bool,
) -> bool {
    exists|first: int, second: int, third: int|
        #![trigger sprout_from_rolls(
            bt,
            life,
            config.multiplier as int,
            cooldown,
            branches,
            shoots,
            shoots + offset,
            first,
            second,
            third,
        )]
        sprout_rolls_in_range(bt, life, config.multiplier as int, first, second, third)
            && sprout_result(
            sprout_from_rolls(
                bt,
                life,
                config.multiplier as int,
                cooldown,
                branches,
                shoots,
                shoots + offset,
                first,
                second,
                third,
            ),
            tree,
            from,
            to,
            pos,
            config,
            bottom,
            branches,
            shoots,
            branches_after,
            shoots_after,
            cooldown_after,
            stop,
        )
}

/// The `k`-th step of the growth recorded by `own`, `branches`, `shoots` and
/// `cooldowns` decided about sub-branches as the rules say: a step that left
/// its own glyph went on, a last step without one may have stopped.
pub open spec fn sprout_step(
    tree: Seq<Val>,
    start: int,
    own: Seq<int>,
    branches: Seq<int>,
    shoots: Seq<int>,
    cooldowns: Seq<int>,
    k: int,
    bt: BranchType,
    pos: Position,
    life: int,
    config: TreeConfig,
    bottom: int,
    offset: int,
) -> bool {
    let from = region_start(own, k, start);
    let to = region_end(own, k, tree.len() as int);
    let at = path_prev_pos(tree, own, k, pos);
    let cooldown = path_prev_cooldown(tree, own, k, config.multiplier as int);
    ||| sprouted(tree, from, to, bt, life - 1 - k, config, bottom, at, cooldown, branches[k], shoots[k],
        offset, branches[k + 1], shoots[k + 1], cooldowns[k], false)
    ||| k >= own.len() && sprouted(tree, from, to, bt, life - 1 - k, config, bottom, at, cooldown,
        branches[k], shoots[k], offset, branches[k + 1], shoots[k + 1], cooldowns[k], true)
}

/// The growth of a branch recorded step by step: its own path, complete where
/// no step can overflow; the counts of branches and shoots before and after
/// each step's sub-branch (the branch itself counted first), ending at the
/// final counts; the cooldown each step set, one above the one its glyph
/// records; and for each step, the sub-branch decided and grown.
pub open spec fn growth_recorded(
    tree: Seq<Val>,
    start: int,
    own: Seq<int>,
    branches: Seq<int>,
    shoots: Seq<int>,
    cooldowns: Seq<int>,
    bt: BranchType,
    pos: Position,
    life: int,
    config: TreeConfig,
    bottom: int,
    offset: int,
    branches_before: int,
    shoots_before: int,
    branches_after: int,
    shoots_after: int,
) -> bool {
    &&& own_path(tree, start, own, bt, pos, life, config)
    &&& path_complete(tree, own, bt, pos, life, config, bottom)
    &&& branches.len() == shoots.len()
    &&& cooldowns.len() + 1 == branches.len()
    &&& (branches.len() == own.len() + 1 || branches.len() == own.len() + 2)
    &&& branches.len() == own.len() + 2 ==> own.len() < life
    &&& branches[0] == branches_before + 1
    &&& shoots[0] == shoots_before
    &&& branches.last() == branches_after
    &&& shoots.last() == shoots_after
    &&& forall|k: int|
        0 <= k < own.len() ==> tree[#[trigger] own[k]].shoots == shoots[k + 1]
            && tree[own[k]].shoot_cooldown + 1 == cooldowns[k]
    &&& forall|k: int|
        0 <= k < cooldowns.len() ==> #[trigger] sprout_step(
            tree,
            start,
            own,
            branches,
            shoots,
            cooldowns,
            k,
            bt,
            pos,
            life,
            config,
            bottom,
            offset,
        )
}

/// A branch of type `bt` started at `pos` with `life` left grew in `tree` from
/// `start` on, step by step as the rules say, taking the counts of branches
/// and shoots from the given values before to those after.
pub open spec fn branch_grew(
    tree: Seq<Val>,
    start: int,
    bt: BranchType,
    pos: Position,
    life: int,
    config: TreeConfig,
    bottom: int,
    offset: int,
    branches_before: int,
    shoots_before: int,
    branches_after: int,
    shoots_after: int,
) -> bool {
    exists|own: Seq<int>, branches: Seq<int>, shoots: Seq<int>, cooldowns: Seq<int>|
        #![trigger growth_recorded(tree, start, own, branches, shoots, cooldowns, bt, pos, life, config, bottom, offset, branches_before, shoots_before, branches_after, shoots_after)]
        growth_recorded(
            tree,
            start,
            own,
            branches,
            shoots,
            cooldowns,
            bt,
            pos,
            life,
            config,
            bottom,
            offset,
            branches_before,
            shoots_before,
            branches_after,
            shoots_after,
        )
}

} // verus!

verus! {

/// Different branch types are recorded under different names.
pub proof fn lemma_kind_names_distinct(a: BranchType, b: BranchType)
    requires
        a != b,
    ensures
        kind_name(a) != kind_name(b),
{
    reveal_strlit("Trunk");
    reveal_strlit("ShootLeft");
    reveal_strlit("ShootRight");
    reveal_strlit("Dying");
    reveal_strlit("Dead");
    if kind_name(a).len() == kind_name(b).len() {
        assert(kind_name(a)[0] != kind_name(b)[0]);
    }
}

proof fn lemma_names_of_shoots()
    ensures
        forall|a: BranchType, b: BranchType|
            #![trigger kind_name(a), kind_name(b)]
            a != b ==> kind_name(a) != kind_name(b),
{
    assert forall|a: BranchType, b: BranchType| a != b implies kind_name(a) != kind_name(b) by {
        lemma_kind_names_distinct(a, b);
    }
}

/// The step recorded in a glyph lies in the range of its branch type's moves.
pub proof fn lemma_grown_steps_in_range(v: Val, bt: BranchType, config: TreeConfig, bottom: int)
    requires
        grown_as(v, bt, config, bottom),
    ensures
        step_in_range(bt, v.dx as int, v.dy as int),
{
    let life = v.life as int;
    let age = config.life - v.life;
    let m = config.multiplier as int;
    if deltas_possible(bt, life, age, m, v.dx as int, v.dy as int) {
        lemma_possible_steps_in_range(bt, life, age, m, v.dx as int, v.dy as int);
    } else {
        lemma_possible_steps_in_range(bt, life, age, m, v.dx as int, v.dy + 1);
    }
}

/// A glyph that a branch of a given type can leave is one that some branch can leave.
pub proof fn lemma_grown_from_well_grown(v: Val, bt: BranchType, config: TreeConfig, bottom: int)
    requires
        grown_from(v, bt, config, bottom),
    ensures
        well_grown(v, config, bottom),
{
}

/// What a branch grows out of grows out of every branch that may leave it.
proof fn lemma_grown_from_widens(v: Val, parent: BranchType, child: BranchType, config: TreeConfig, bottom: int)
    requires
        may_leave(parent, child),
        grown_from(v, child, config, bottom),
    ensures
        grown_from(v, parent, config, bottom),
{
}

/// The side of a glyph left by a branch that is not a trunk: a shoot's glyphs
/// follow the parity of its start, other branches leave no shoot glyph.
proof fn lemma_side_of_glyph(v: Val, p: BranchType, offset: int, config: TreeConfig, bottom: int)
    requires
        grown_from(v, p, config, bottom),
        !(p is Trunk),
        p is ShootLeft ==> (offset + v.shoots) % 2 == 0,
        p is ShootRight ==> (offset + v.shoots) % 2 != 0,
    ensures
        shoot_side_ok(v, offset),
{
    lemma_names_of_shoots();
}

/// A trunk's own glyph is no shoot glyph.
proof fn lemma_side_of_trunk_glyph(v: Val, offset: int, config: TreeConfig, bottom: int)
    requires
        grown_as(v, BranchType::Trunk, config, bottom),
    ensures
        shoot_side_ok(v, offset),
{
    lemma_kind_names_distinct(BranchType::Trunk, BranchType::ShootLeft);
    lemma_kind_names_distinct(BranchType::Trunk, BranchType::ShootRight);
}

/// The glyph that a branch leaves near the end of its life, or as a dying or
/// dead branch, is a leaf, `&`.
pub proof fn lemma_late_glyphs_are_leaves(v: Val, bt: BranchType, config: TreeConfig, bottom: int)
    requires
        grown_as(v, bt, config, bottom),
        v.life < 4 || bt is Dying || bt is Dead,
    ensures
        v.char@ == "&"@,
{
}

/// A path stays a path when glyphs are appended behind it.
proof fn lemma_path_extends(
    tree: Seq<Val>,
    tree2: Seq<Val>,
    start: int,
    own: Seq<int>,
    bt: BranchType,
    pos: Position,
    life: int,
    config: TreeConfig,
    bottom: int,
)
    requires
        0 <= start,
        tree.len() <= tree2.len(),
        forall|i: int| 0 <= i < tree.len() ==> tree2[i] == tree[i],
        own_path(tree, start, own, bt, pos, life, config),
    ensures
        own_path(tree2, start, own, bt, pos, life, config),
        path_end(tree2, own, pos) == path_end(tree, own, pos),
        path_prev_cooldown(tree2, own, own.len() as int, config.multiplier as int)
            == path_prev_cooldown(tree, own, own.len() as int, config.multiplier as int),
        path_complete(tree, own, bt, pos, life, config, bottom) ==> path_complete(tree2, own, bt, pos, life, config, bottom),
{
    assert forall|k: int| 0 <= k < own.len() implies #[trigger] step_on_path(tree2, own, k, bt, pos, life, config) by {
        assert(step_on_path(tree, own, k, bt, pos, life, config));
        assert(start <= own[k] < tree.len());
        assert(tree2[own[k]] == tree[own[k]]);
        if k > 0 {
            assert(start <= own[k - 1] < tree.len());
            assert(tree2[own[k - 1]] == tree[own[k - 1]]);
        }
    }
    if own.len() > 0 {
        assert(start <= own[own.len() - 1] < tree.len());
        assert(tree2[own.last()] == tree[own.last()]);
        assert(tree2[own[own.len() - 1]] == tree[own[own.len() - 1]]);
    }
}

/// A path followed by the branch's next step, appended last, is a path.
proof fn lemma_path_push(
    tree: Seq<Val>,
    start: int,
    own: Seq<int>,
    bt: BranchType,
    pos: Position,
    life: int,
    config: TreeConfig,
)
    requires
        0 <= start < tree.len(),
        start <= tree.len() - 1,
        own_path(tree, start, own, bt, pos, life, config),
        forall|k: int| 0 <= k < own.len() ==> own[k] < tree.len() - 1,
        step_on_path(tree, own.push(tree.len() - 1), own.len() as int, bt, pos, life, config),
    ensures
        own_path(tree, start, own.push(tree.len() - 1), bt, pos, life, config),
{
    let own2 = own.push(tree.len() - 1);
    assert forall|k: int| 0 <= k < own2.len() implies #[trigger] step_on_path(tree, own2, k, bt, pos, life, config) by {
        if k < own.len() {
            assert(step_on_path(tree, own, k, bt, pos, life, config));
            assert(own2[k] == own[k]);
            if k > 0 {
                assert(own2[k - 1] == own[k - 1]);
            }
        }
    }
    assert forall|j: int, k: int| #![trigger own2[j], own2[k]] 0 <= j < k < own2.len() implies own2[j] < own2[k] by {
        if k < own.len() {
            assert(own2[j] == own[j] && own2[k] == own[k]);
        } else {
            assert(own2[j] == own[j]);
        }
    }
}

/// A branch's path stays its path when glyphs are appended behind it.
proof fn lemma_branch_path_extends(
    tree: Seq<Val>,
    tree2: Seq<Val>,
    start: int,
    bt: BranchType,
    pos: Position,
    life: int,
    config: TreeConfig,
    bottom: int,
)
    requires
        0 <= start,
        tree.len() <= tree2.len(),
        forall|i: int| 0 <= i < tree.len() ==> tree2[i] == tree[i],
        branch_path(tree, start, bt, pos, life, config, bottom),
    ensures
        branch_path(tree2, start, bt, pos, life, config, bottom),
{
    let own = choose|own: Seq<int>|
        own_path(tree, start, own, bt, pos, life, config) && path_complete(tree, own, bt, pos, life, config, bottom);
    lemma_path_extends(tree, tree2, start, own, bt, pos, life, config, bottom);
    assert(own_path(tree2, start, own, bt, pos, life, config) && path_complete(tree2, own, bt, pos, life, config, bottom));
}

/// A step's decision and its sub-branch stay as they were when glyphs are
/// appended behind them.
proof fn lemma_sprouted_extends(
    tree: Seq<Val>,
    tree2: Seq<Val>,
    from: int,
    to: int,
    bt: BranchType,
    life: int,
    config: TreeConfig,
    bottom: int,
    pos: Position,
    cooldown: int,
    branches: int,
    shoots: int,
    offset: int,
    branches_after: int,
    shoots_after: int,
    cooldown_after: int,
    stop: bool,
)
    requires
        0 <= from,
        tree.len() <= tree2.len(),
        forall|i: int| 0 <= i < tree.len() ==> tree2[i] == tree[i],
        sprouted(tree, from, to, bt, life, config, bottom, pos, cooldown, branches, shoots, offset,
            branches_after, shoots_after, cooldown_after, stop),
    ensures
        sprouted(tree2, from, to, bt, life, config, bottom, pos, cooldown, branches, shoots, offset,
            branches_after, shoots_after, cooldown_after, stop),
{
    let m = config.multiplier as int;
    let (first, second, third) = choose|first: int, second: int, third: int|
        sprout_rolls_in_range(bt, life, m, first, second, third) && sprout_result(
            sprout_from_rolls(bt, life, m, cooldown, branches, shoots, shoots + offset, first, second, third),
            tree, from, to, pos, config, bottom, branches, shoots, branches_after, shoots_after,
            cooldown_after, stop);
    let d = sprout_from_rolls(bt, life, m, cooldown, branches, shoots, shoots + offset, first, second, third);
    match d.1 {
        Some((t, l)) => {
            lemma_branch_path_extends(tree, tree2, from, t, pos, l, config, bottom);
        },
        None => {},
    }
    assert(sprout_rolls_in_range(bt, life, m, first, second, third) && sprout_result(d, tree2, from, to,
        pos, config, bottom, branches, shoots, branches_after, shoots_after, cooldown_after, stop));
}

/// The first `n` steps of a recorded growth, all of which left their own
/// glyph, stay as they were when glyphs are appended behind them and the
/// record is extended.
proof fn lemma_steps_carry(
    tree: Seq<Val>,
    tree2: Seq<Val>,
    start: int,
    own: Seq<int>,
    own2: Seq<int>,
    branches: Seq<int>,
    branches2: Seq<int>,
    shoots: Seq<int>,
    shoots2: Seq<int>,
    cooldowns: Seq<int>,
    cooldowns2: Seq<int>,
    n: int,
    bt: BranchType,
    pos: Position,
    life: int,
    config: TreeConfig,
    bottom: int,
    offset: int,
)
    requires
        0 <= start,
        0 <= n <= own.len(),
        n <= own2.len(),
        tree.len() <= tree2.len(),
        forall|i: int| 0 <= i < tree.len() ==> tree2[i] == tree[i],
        forall|k: int| 0 <= k < n ==> own2[k] == own[k],
        forall|k: int| 0 <= k < own.len() ==> start <= #[trigger] own[k] < tree.len(),
        n < branches.len() <= branches2.len(),
        n < shoots.len() <= shoots2.len(),
        n <= cooldowns.len() <= cooldowns2.len(),
        forall|i: int| 0 <= i < branches.len() ==> branches2[i] == branches[i],
        forall|i: int| 0 <= i < shoots.len() ==> shoots2[i] == shoots[i],
        forall|i: int| 0 <= i < cooldowns.len() ==> cooldowns2[i] == cooldowns[i],
        forall|k: int|
            0 <= k < n ==> #[trigger] sprout_step(tree, start, own, branches, shoots, cooldowns, k, bt,
                pos, life, config, bottom, offset),
    ensures
        forall|k: int|
            0 <= k < n ==> #[trigger] sprout_step(tree2, start, own2, branches2, shoots2, cooldowns2,
                k, bt, pos, life, config, bottom, offset),
{
    assert forall|k: int| 0 <= k < n implies #[trigger] sprout_step(tree2, start, own2, branches2,
        shoots2, cooldowns2, k, bt, pos, life, config, bottom, offset) by {
        assert(sprout_step(tree, start, own, branches, shoots, cooldowns, k, bt, pos, life, config,
            bottom, offset));
        let from = region_start(own, k, start);
        let to = region_end(own, k, tree.len() as int);
        assert(start <= own[k] < tree.len());
        if k > 0 {
            assert(start <= own[k - 1] < tree.len());
            assert(tree2[own2[k - 1]] == tree[own[k - 1]]);
        }
        assert(region_start(own2, k, start) == from);
        assert(region_end(own2, k, tree2.len() as int) == to);
        assert(path_prev_pos(tree2, own2, k, pos) == path_prev_pos(tree, own, k, pos));
        assert(path_prev_cooldown(tree2, own2, k, config.multiplier as int) == path_prev_cooldown(
            tree, own, k, config.multiplier as int));
        assert(0 <= from);
        lemma_sprouted_extends(tree, tree2, from, to, bt, life - 1 - k, config, bottom,
            path_prev_pos(tree, own, k, pos), path_prev_cooldown(tree, own, k, config.multiplier as int),
            branches[k], shoots[k], offset, branches[k + 1], shoots[k + 1], cooldowns[k], false);
    }
}

/// Taking in the glyphs that a sub-branch appended: what held of the glyphs
/// before holds of all of them.
proof fn lemma_absorb_child(
    before: Seq<Val>,
    after: Seq<Val>,
    start: int,
    parent: BranchType,
    child: BranchType,
    config: TreeConfig,
    bottom: int,
    offset: int,
    plain: bool,
    child_offset: int,
    child_plain: bool,
    lo: int,
    mid: int,
    hi: int,
)
    requires
        0 <= start <= before.len() <= after.len(),
        forall|i: int| 0 <= i < before.len() ==> after[i] == before[i],
        forall|i: int|
            start <= i < before.len() ==> {
                &&& glyph_ok(#[trigger] before[i], parent, config, bottom, offset, plain)
                &&& lo <= before[i].shoots <= mid
            },
        shoots_ordered(before, start),
        forall|i: int|
            before.len() <= i < after.len() ==> {
                &&& glyph_ok(#[trigger] after[i], child, config, bottom, child_offset, child_plain)
                &&& mid <= after[i].shoots <= hi
            },
        shoots_ordered(after, before.len() as int),
        may_leave(parent, child),
        plain ==> child_plain,
        parent is Trunk && child is Trunk ==> child_offset == offset,
        parent is Trunk && (child is ShootLeft || child is ShootRight) ==> hi == mid && ((child is ShootLeft) == ((offset + mid) % 2 == 0)),
        lo <= mid <= hi,
    ensures
        forall|i: int|
            start <= i < after.len() ==> {
                &&& glyph_ok(#[trigger] after[i], parent, config, bottom, offset, plain)
                &&& lo <= after[i].shoots <= hi
            },
        shoots_ordered(after, start),
{
    assert forall|i: int| start <= i < after.len() implies {
        &&& glyph_ok(#[trigger] after[i], parent, config, bottom, offset, plain)
        &&& lo <= after[i].shoots <= hi
    } by {
        if i < before.len() {
            assert(after[i] == before[i]);
        } else {
            let v = after[i];
            lemma_grown_from_widens(v, parent, child, config, bottom);
            if parent is Trunk && !(child is Trunk) {
                lemma_side_of_glyph(v, child, offset, config, bottom);
            }
        }
    }
    assert forall|i: int, j: int|
        #![trigger after[i], after[j]]
        start <= i <= j < after.len() implies after[i].shoots <= after[j].shoots by {
        if j < before.len() {
            assert(after[i] == before[i]);
            assert(after[j] == before[j]);
        } else if i < before.len() {
            assert(after[i] == before[i]);
        }
    }
}

/// Grows the tree: a trunk rooted at the middle of the bottom edge, whose
/// branches are started by the growth rules, drawing from `rng` as they go.
///
/// The root is placed on the row just below the terminal, and a branch whose
/// position is off the terminal stops before it leaves a glyph: the grown tree
/// is empty, whatever the configuration and the draws.
pub fn grow_tree(config: &TreeConfig, rng: &mut StdRng) -> (tree: Vec<Val>)
    ensures
        tree@.len() == 0,
{
    let start_roll = gen_i32(rng);
    let mut counters = Counters {
        shoots: 0,
        branches: 0,
        shoot_counter: (start_roll % 3) + 1,
        tree_bottom: config.max_y,
    };
    let mut tree: Vec<Val> = Vec::new();
    let root = Position { x: (config.max_x / 2) as i32, y: config.max_y as i32 };
    branch(config, &mut counters, &mut tree, rng, root, BranchType::Trunk, config.life);
    tree
}

/// Grows one branch of type `branch_type` from `pos` for at most `life` steps,
/// appending the glyphs it leaves to `tree` and starting further branches on
/// the way.
///
/// Each step draws the branch's move; a branch that is off the terminal at
/// the start of a step stops. With fewer than three steps left it starts a dead
/// branch; otherwise trunks and shoots close to their end start a dying branch,
/// and a trunk may start another trunk or, once its cooldown has run out, a
/// shoot, alternately to the left and to the right. After the move, a branch
/// still on the terminal leaves a glyph there.
///
/// Where a step's `i32` arithmetic would overflow, the branch stops; where
/// starting a sub-branch would overflow its life, a counter or the count of
/// started branches, that sub-branch is not started.
#[verifier::rlimit(60)]
fn branch(
    config: &TreeConfig,
    counters: &mut Counters,
    tree: &mut Vec<Val>,
    rng: &mut StdRng,
    pos: Position,
    branch_type: BranchType,
    life: i32,
)
    requires
        old(counters).branches < i32::MAX,
    ensures
        final(counters).tree_bottom == old(counters).tree_bottom,
        old(counters).branches < final(counters).branches,
        old(counters).shoots <= final(counters).shoots,
        final(counters).shoot_counter - final(counters).shoots == old(counters).shoot_counter
            - old(counters).shoots,
        !(branch_type is Trunk) ==> final(counters).shoots == old(counters).shoots
            && final(counters).shoot_counter == old(counters).shoot_counter,
        old(tree)@.len() <= final(tree)@.len(),
        forall|i: int| 0 <= i < old(tree)@.len() ==> final(tree)@[i] == old(tree)@[i],
        forall|i: int|
            old(tree)@.len() <= i < final(tree)@.len() ==> {
                &&& glyph_ok(
                    #[trigger] final(tree)@[i],
                    branch_type,
                    *config,
                    old(counters).tree_bottom as int,
                    old(counters).shoot_counter - old(counters).shoots,
                    plain_start(pos, *config),
                )
                &&& old(counters).shoots <= final(tree)@[i].shoots <= final(counters).shoots
            },
        shoots_ordered(final(tree)@, old(tree)@.len() as int),
        (life <= 0 || !in_bounds(pos, *config)) ==> final(tree)@ == old(tree)@
            && final(counters).shoots == old(counters).shoots
            && final(counters).shoot_counter == old(counters).shoot_counter
            && final(counters).branches == old(counters).branches + 1,
        branch_type is Dead || branch_type is Dying ==> final(tree)@.len() - old(tree)@.len()
            <= dead_glyph_bound(life as int),
        branch_type is Dead || branch_type is Dying ==> final(tree)@.len() - old(tree)@.len()
            <= (if life > 0 { life as int } else { 0 }) + 4,
        starts_growing(pos, life as int, *config) ==> old(tree)@.len() < final(tree)@.len(),
        branch_path(
            final(tree)@,
            old(tree)@.len() as int,
            branch_type,
            pos,
            life as int,
            *config,
            old(counters).tree_bottom as int,
        ),
        branch_grew(
            final(tree)@,
            old(tree)@.len() as int,
            branch_type,
            pos,
            life as int,
            *config,
            old(counters).tree_bottom as int,
            old(counters).shoot_counter - old(counters).shoots,
            old(counters).branches as int,
            old(counters).shoots as int,
            final(counters).branches as int,
            final(counters).shoots as int,
        ),
        life <= 0 ==> *final(rng) == *old(rng),
    decreases i32::MAX - old(counters).branches, 1int,
{
    let ghost pos0 = pos;
    let ghost life0 = life as int;
    let ghost c0 = *old(counters);
    let ghost t0 = old(tree)@;
    let ghost bottom = c0.tree_bottom as int;
    let ghost offset = c0.shoot_counter - c0.shoots;
    let ghost plain = plain_start(pos0, *config);
    let ghost grows = starts_growing(pos0, life0, *config);
    let ghost safe = steps_safely(pos0, life0, *config);
    let ghost rng0 = *old(rng);
    let ghost mut own: Seq<int> = Seq::empty();
    let ghost mut counted: Seq<int> = seq![old(counters).branches + 1];
    let ghost mut shot: Seq<int> = seq![old(counters).shoots as int];
    let ghost mut cooled: Seq<int> = Seq::empty();
    let is_trunk = match &branch_type {
        BranchType::Trunk => true,
        _ => false,
    };
    counters.branches = counters.branches + 1;
    let mut shoot_cooldown = config.multiplier;
    let mut pos = pos;
    let mut life = life;
    let ghost mut stepped = false;

    while life > 0
        invariant_except_break
            !in_bounds(pos0, *config) ==> pos == pos0 && life == life0,
            !stepped || in_bounds(pos, *config) ==> pos == path_end(tree@, own, pos0) && life == life0
                - own.len() && shoot_cooldown == path_prev_cooldown(
                tree@,
                own,
                own.len() as int,
                config.multiplier as int,
            ),
            !stepped || in_bounds(pos, *config) ==> counted.len() == own.len() + 1 && tree@.len()
                == region_start(own, own.len() as int, t0.len() as int),
            stepped && !in_bounds(pos, *config) ==> own.len() < life0 && can_leave(
                branch_type,
                path_end(tree@, own, pos0),
                life0 - 1 - own.len(),
                *config,
                bottom,
            ),
        invariant
            c0 == *old(counters),
            rng0 == *old(rng),
            life0 <= 0 ==> *rng == rng0,
            safe == steps_safely(pos0, life0, *config),
            safe ==> -0x4000_0000 - (life0 - life) <= shoot_cooldown,
            !stepped ==> own.len() == 0,
            stepped ==> 0 <= life,
            own_path(tree@, t0.len() as int, own, branch_type, pos0, life0, *config),
            counted.len() == shot.len(),
            cooled.len() + 1 == counted.len(),
            counted.len() == own.len() + 1 || counted.len() == own.len() + 2,
            counted.len() == own.len() + 2 ==> own.len() < life0,
            counted[0] == c0.branches + 1,
            shot[0] == c0.shoots,
            counted.last() == counters.branches,
            shot.last() == counters.shoots,
            forall|k: int|
                0 <= k < own.len() ==> tree@[#[trigger] own[k]].shoots == shot[k + 1]
                    && tree@[own[k]].shoot_cooldown + 1 == cooled[k],
            forall|k: int|
                0 <= k < cooled.len() ==> #[trigger] sprout_step(tree@, t0.len() as int, own, counted,
                    shot, cooled, k, branch_type, pos0, life0, *config, bottom, offset),
            t0 == old(tree)@,
            bottom == c0.tree_bottom as int,
            offset == c0.shoot_counter - c0.shoots,
            plain == plain_start(pos0, *config),
            grows == starts_growing(pos0, life0, *config),
            is_trunk == (branch_type is Trunk),
            counters.tree_bottom == c0.tree_bottom,
            c0.branches < counters.branches,
            c0.shoots <= counters.shoots,
            counters.shoot_counter - counters.shoots == offset,
            !is_trunk ==> counters.shoots == c0.shoots && counters.shoot_counter == c0.shoot_counter,
            life <= life0,
            !stepped ==> pos == pos0 && life == life0 && shoot_cooldown == config.multiplier && tree@ == t0,
            plain ==> in_window(pos),
            t0.len() <= tree@.len(),
            forall|i: int| 0 <= i < t0.len() ==> tree@[i] == t0[i],
            forall|i: int|
                t0.len() <= i < tree@.len() ==> {
                    &&& glyph_ok(#[trigger] tree@[i], branch_type, *config, bottom, offset, plain)
                    &&& c0.shoots <= tree@[i].shoots <= counters.shoots
                },
            shoots_ordered(tree@, t0.len() as int),
            (life0 <= 0 || !in_bounds(pos0, *config)) ==> tree@ == t0 && counters.shoots
                == c0.shoots && counters.shoot_counter == c0.shoot_counter && counters.branches
                == c0.branches + 1,
            branch_type is Dead || branch_type is Dying ==> tree@.len() - t0.len()
                <= dead_glyph_bound(life0) - dead_glyph_bound(life as int),
            grows && stepped ==> t0.len() < tree@.len(),
        ensures
            grows ==> t0.len() < tree@.len(),
            path_complete(tree@, own, branch_type, pos0, life0, *config, bottom),
            own_path(tree@, t0.len() as int, own, branch_type, pos0, life0, *config),
            growth_recorded(tree@, t0.len() as int, own, counted, shot, cooled, branch_type, pos0, life0,
                *config, bottom, offset, c0.branches as int, c0.shoots as int, counters.branches as int,
                counters.shoots as int),
        decreases life,
    {
        let ghost was_stepped = stepped;
        let ghost end_top = path_end(tree@, own, pos0);
        proof {
            stepped = true;
        }
        life = life - 1;
        if config.life < i32::MIN + life {
            break;
        }
        let age = config.life - life;
        if is_trunk && age > 2 && life >= 4 && (config.multiplier > i32::MAX / 3
            || config.multiplier < i32::MIN / 3) {
            break;
        }
        let (dx, dy0) = set_deltas(&branch_type, life, age, config.multiplier, rng);
        let mut dy = dy0;
        if dy0 > 0 && pos.y > (counters.tree_bottom as i32 - 1) {
            dy = dy0 - 1;
        }
        if pos.x < 0 || pos.x as u16 >= config.max_x || pos.y < 0 || pos.y as u16 >= config.max_y {
            break;
        }
        let ghost from = pos;
        let ghost before = tree@;
        let ghost mid = counters.shoots;
        let ghost cooldown_before = shoot_cooldown;
        let stop = grow_sub_branches(config, counters, tree, rng, pos, &branch_type, life, &mut shoot_cooldown);
        proof {
            lemma_absorb_child(before, tree@, t0.len() as int, branch_type, branch_type,
                *config, bottom, offset, plain, offset, plain_start(pos, *config),
                c0.shoots as int, mid as int, counters.shoots as int);
            lemma_path_extends(before, tree@, t0.len() as int, own, branch_type, pos0, life0, *config, bottom);
            let counted2 = counted.push(counters.branches as int);
            let shot2 = shot.push(counters.shoots as int);
            let cooled2 = cooled.push(shoot_cooldown as int);
            lemma_steps_carry(before, tree@, t0.len() as int, own, own, counted, counted2, shot, shot2,
                cooled, cooled2, own.len() as int, branch_type, pos0, life0, *config, bottom, offset);
            let k = own.len() as int;
            assert(region_start(own, k, t0.len() as int) == before.len());
            assert(region_end(own, k, tree@.len() as int) == tree@.len());
            assert(path_prev_pos(tree@, own, k, pos0) == from);
            assert(path_prev_cooldown(tree@, own, k, config.multiplier as int) == cooldown_before);
            assert(sprout_step(tree@, t0.len() as int, own, counted2, shot2, cooled2, k, branch_type, pos0,
                life0, *config, bottom, offset));
            counted = counted2;
            shot = shot2;
            cooled = cooled2;
        }
        if stop {
            break;
        }

        if shoot_cooldown == i32::MIN {
            break;
        }
        shoot_cooldown = shoot_cooldown - 1;

        if (dx > 0 && pos.x > i32::MAX - dx) || (dy > 0 && pos.y > i32::MAX - dy) {
            break;
        }
        pos.x = pos.x + dx;
        pos.y = pos.y + dy;

        if pos.x < 0 || pos.x as u16 >= config.max_x || pos.y < 0 || pos.y as u16 >= config.max_y {
            proof {
                assert(step_fits(branch_type, life as int, config.life - life, config.multiplier as int,
                    bottom, from.y as int, dx as int, dy as int));
                assert(!on_terminal(from.x + dx, from.y + dy, *config));
            }
            continue;
        }

        let branch_str = choose_string(&branch_type, life, dx, dy);
        let style = choose_color(&branch_type, rng).unwrap();
        let type_str = match &branch_type {
            BranchType::Trunk => "Trunk",
            BranchType::ShootLeft => "ShootLeft",
            BranchType::ShootRight => "ShootRight",
            BranchType::Dying => "Dying",
            BranchType::Dead => "Dead",
        };
        let val = Val {
            pos,
            style,
            char: branch_str,
            branch_type: type_str.to_string(),
            dx,
            dy,
            life,
            shoots: counters.shoots,
            shoot_cooldown,
        };
        proof {
            assert(val.pos.x - val.dx == from.x);
            assert(val.pos.y - val.dy == from.y);
            assert(grown_as(val, branch_type, *config, bottom));
            if is_trunk {
                lemma_side_of_trunk_glyph(val, offset, *config, bottom);
            }
        }
        let ghost mid_tree = tree@;
        tree.push(val);
        proof {
            lemma_path_extends(mid_tree, tree@, t0.len() as int, own, branch_type, pos0, life0, *config, bottom);
            lemma_path_push(tree@, t0.len() as int, own, branch_type, pos0, life0, *config);
            let own2 = own.push(mid_tree.len() as int);
            let k = own.len() as int;
            lemma_steps_carry(mid_tree, tree@, t0.len() as int, own, own2, counted, counted, shot, shot,
                cooled, cooled, k, branch_type, pos0, life0, *config, bottom, offset);
            assert(sprout_step(mid_tree, t0.len() as int, own, counted, shot, cooled, k, branch_type, pos0,
                life0, *config, bottom, offset));
            assert(region_start(own2, k, t0.len() as int) == region_start(own, k, t0.len() as int));
            assert(region_end(own2, k, tree@.len() as int) == mid_tree.len());
            if k > 0 {
                assert(tree@[own2[k - 1]] == mid_tree[own[k - 1]]);
            }
            assert(path_prev_pos(tree@, own2, k, pos0) == path_prev_pos(mid_tree, own, k, pos0));
            assert(path_prev_cooldown(tree@, own2, k, config.multiplier as int) == path_prev_cooldown(
                mid_tree, own, k, config.multiplier as int));
            lemma_sprouted_extends(mid_tree, tree@, region_start(own, k, t0.len() as int), mid_tree.len() as int,
                branch_type, life0 - 1 - k, *config, bottom, path_prev_pos(mid_tree, own, k, pos0),
                path_prev_cooldown(mid_tree, own, k, config.multiplier as int), counted[k], shot[k], offset,
                counted[k + 1], shot[k + 1], cooled[k], false);
            assert(sprout_step(tree@, t0.len() as int, own2, counted, shot, cooled, k, branch_type, pos0,
                life0, *config, bottom, offset));
            own = own2;
        }
    }
    proof {
        assert(own_path(tree@, t0.len() as int, own, branch_type, pos0, life0, *config)
            && path_complete(tree@, own, branch_type, pos0, life0, *config, bottom));
        assert(growth_recorded(tree@, t0.len() as int, own, counted, shot, cooled, branch_type, pos0, life0,
            *config, bottom, offset, c0.branches as int, c0.shoots as int, counters.branches as int,
            counters.shoots as int));
    }
}

/// The sub-branches that a branch of type `branch_type` at `pos`, with `life`
/// steps left after this one, starts in one step, drawing from `rng` as
/// `sprout_from_rolls` needs; `shoot_cooldown` is set as it decides. Returns
/// `true` where the rules' own arithmetic would overflow, and the branch is to stop.
fn grow_sub_branches(
    config: &TreeConfig,
    counters: &mut Counters,
    tree: &mut Vec<Val>,
    rng: &mut StdRng,
    pos: Position,
    branch_type: &BranchType,
    life: i32,
    shoot_cooldown: &mut i32,
) -> (stop: bool)
    requires
        in_bounds(pos, *config),
        life >= 0,
    ensures
        sprouted(
            final(tree)@,
            old(tree)@.len() as int,
            final(tree)@.len() as int,
            *branch_type,
            life as int,
            *config,
            old(counters).tree_bottom as int,
            pos,
            *old(shoot_cooldown) as int,
            old(counters).branches as int,
            old(counters).shoots as int,
            old(counters).shoot_counter - old(counters).shoots,
            final(counters).branches as int,
            final(counters).shoots as int,
            *final(shoot_cooldown) as int,
            stop,
        ),
        final(counters).tree_bottom == old(counters).tree_bottom,
        old(counters).branches <= final(counters).branches,
        old(counters).shoots <= final(counters).shoots,
        final(counters).shoot_counter - final(counters).shoots == old(counters).shoot_counter
            - old(counters).shoots,
        !(*branch_type is Trunk) ==> final(counters).shoots == old(counters).shoots
            && final(counters).shoot_counter == old(counters).shoot_counter
            && *final(shoot_cooldown) == *old(shoot_cooldown),
        *final(shoot_cooldown) == *old(shoot_cooldown) || *final(shoot_cooldown) == config.multiplier * 2,
        old(tree)@.len() <= final(tree)@.len(),
        forall|i: int| 0 <= i < old(tree)@.len() ==> final(tree)@[i] == old(tree)@[i],
        forall|i: int|
            old(tree)@.len() <= i < final(tree)@.len() ==> {
                &&& glyph_ok(
                    #[trigger] final(tree)@[i],
                    *branch_type,
                    *config,
                    old(counters).tree_bottom as int,
                    old(counters).shoot_counter - old(counters).shoots,
                    plain_start(pos, *config),
                )
                &&& old(counters).shoots <= final(tree)@[i].shoots <= final(counters).shoots
            },
        shoots_ordered(final(tree)@, old(tree)@.len() as int),
        *branch_type is Dead || *branch_type is Dying ==> final(tree)@.len() - old(tree)@.len()
            <= if life < 3 { dead_glyph_bound(life as int) } else { 0 },
        stop ==> config.multiplier == 0 || config.multiplier > i32::MAX - 2,
    decreases i32::MAX - old(counters).branches + 1, 0int,
{
    let ghost c0 = *old(counters);
    let ghost t0 = old(tree)@;
    let ghost cd0 = *old(shoot_cooldown);
    let ghost bottom = c0.tree_bottom as int;
    let ghost offset = c0.shoot_counter - c0.shoots;
    let ghost plain = plain_start(pos, *config);
    let is_trunk = match branch_type {
        BranchType::Trunk => true,
        _ => false,
    };
    let multiplier = config.multiplier;
    let needs_first = life >= 3 && is_trunk && multiplier <= i32::MAX - 2 && !(life < multiplier + 2);
    let first = if needs_first {
        gen_range(rng, 0, 3)
    } else {
        0
    };
    let needs_second = needs_first && (first == 0 || (multiplier != 0 && life % multiplier == 0));
    let second = if needs_second {
        gen_range(rng, 0, 8)
    } else {
        0
    };
    let needs_third = needs_second && second == 0 && life > 7 && i32::MIN / 2 <= multiplier
        && multiplier <= i32::MAX / 2;
    let third = if needs_third {
        gen_range(rng, -2, 3)
    } else {
        0
    };
    let choice = sprout_for_rolls(
        branch_type,
        life,
        multiplier,
        *shoot_cooldown,
        counters.branches,
        counters.shoots,
        counters.shoot_counter,
        first,
        second,
        third,
    );
    let ghost decision = sprout_from_rolls(
        *branch_type,
        life as int,
        multiplier as int,
        cd0 as int,
        c0.branches as int,
        c0.shoots as int,
        c0.shoots as int + offset,
        first as int,
        second as int,
        third as int,
    );
    proof {
        assert(sprout_rolls_in_range(*branch_type, life as int, multiplier as int, first as int, second as int, third as int));
        assert(shoots_ordered(tree@, t0.len() as int));
    }
    *shoot_cooldown = choice.shoot_cooldown;
    match choice.child {
        Some((child_type, child_life)) => {
            let is_shoot = match child_type {
                BranchType::ShootLeft | BranchType::ShootRight => true,
                _ => false,
            };
            if is_shoot {
                counters.shoots = counters.shoots + 1;
                counters.shoot_counter = counters.shoot_counter + 1;
            }
            let ghost mid = counters.shoots;
            branch(config, counters, tree, rng, pos, child_type, child_life);
            proof {
                lemma_absorb_child(t0, tree@, t0.len() as int, *branch_type, child_type,
                    *config, bottom, offset, plain, offset, plain,
                    c0.shoots as int, mid as int, counters.shoots as int);
            }
        },
        None => {},
    }
    proof {
        assert(sprout_result(decision, tree@, t0.len() as int, tree@.len() as int, pos, *config, bottom,
            c0.branches as int, c0.shoots as int, counters.branches as int, counters.shoots as int,
            *shoot_cooldown as int, choice.stop));
    }
    choice.stop
}

} // verus!
