//! Per-step rules of the growth: how a branch moves, which glyph it leaves
//! and which colour that glyph gets.

use vstd::prelude::*;

use super::rng::gen_range;
use super::BranchType;
use rand::rngs::StdRng;

verus! {

/// Font attribute of a drawn glyph.
pub enum FontStyle {
    Reset,
    Bold,
}

/// Terminal style of a drawn glyph: attribute and ANSI colour numbers.
pub struct Style {
    pub attribute: FontStyle,
    pub foreground_color: u8,
    pub background_color: u8,
}

/// The standard library's I/O error, which `choose_color` names in its result type.
#[verifier::external_type_specification]
#[verifier::external_body]
pub struct ExIoError(std::io::Error);

// ---------------------------------------------------------------------------
// Movement
// ---------------------------------------------------------------------------

/// No arithmetic of the movement rule overflows: the middle trunk phase
/// compares `age` with `3 * multiplier`, which must fit in an `i32`.
pub open spec fn deltas_safe(life: int, age: int, multiplier: int) -> bool {
    age <= 2 || life < 4 || (i32::MIN <= multiplier * 3 <= i32::MAX)
}

/// The ranges `[lo, hi)` of the one or two draws that the movement rule makes,
/// in the order in which it makes them. `None` as second range: one draw only.
pub open spec fn spec_roll_ranges(bt: BranchType, life: int, age: int, multiplier: int) -> (
    (int, int),
    Option<(int, int)>,
) {
    match bt {
        BranchType::Trunk => {
            if age <= 2 || life < 4 {
                ((-1, 2), None)
            } else if age < multiplier * 3 {
                ((0, 10), None)
            } else {
                ((0, 10), Some((-1, 2)))
            }
        },
        BranchType::ShootLeft => ((0, 10), Some((0, 10))),
        BranchType::ShootRight => ((0, 10), Some((0, 10))),
        BranchType::Dying => ((0, 10), Some((0, 15))),
        BranchType::Dead => ((0, 10), Some((-1, 2))),
    }
}

/// `first` and `second` are draws that the movement rule can make: each lies in
/// its range, and `second` is 0 where the rule draws once only.
pub open spec fn rolls_in_range(
    bt: BranchType,
    life: int,
    age: int,
    multiplier: int,
    first: int,
    second: int,
) -> bool {
    let (r1, r2) = spec_roll_ranges(bt, life, age, multiplier);
    &&& r1.0 <= first < r1.1
    &&& match r2 {
        Some(r) => r.0 <= second < r.1,
        None => second == 0,
    }
}

/// Horizontal step of a trunk in its middle phase, from a draw in `0..10`.
pub open spec fn trunk_middle_dx(roll: int) -> int {
    if roll == 0 {
        -2
    } else if roll <= 3 {
        -1
    } else if roll <= 5 {
        0
    } else if roll <= 8 {
        1
    } else {
        2
    }
}

/// Vertical step of a shoot, from a draw in `0..10`.
pub open spec fn shoot_dy(roll: int) -> int {
    if roll <= 1 {
        -1
    } else if roll <= 7 {
        0
    } else {
        1
    }
}

/// Horizontal step of a left shoot, from a draw in `0..10`.
pub open spec fn shoot_left_dx(roll: int) -> int {
    if roll <= 1 {
        -2
    } else if roll <= 5 {
        -1
    } else if roll <= 8 {
        0
    } else {
        1
    }
}

/// Horizontal step of a right shoot, from a draw in `0..10`.
pub open spec fn shoot_right_dx(roll: int) -> int {
    if roll <= 1 {
        2
    } else if roll <= 5 {
        1
    } else if roll <= 8 {
        0
    } else {
        -1
    }
}

/// Vertical step of a dying branch, from a draw in `0..10`.
pub open spec fn dying_dy(roll: int) -> int {
    if roll <= 1 {
        -1
    } else if roll <= 8 {
        0
    } else {
        1
    }
}

/// Horizontal step of a dying branch, from a draw in `0..15`.
pub open spec fn dying_dx(roll: int) -> int {
    if roll == 0 {
        -3
    } else if roll <= 2 {
        -2
    } else if roll <= 5 {
        -1
    } else if roll <= 8 {
        0
    } else if roll <= 11 {
        1
    } else if roll <= 13 {
        2
    } else {
        3
    }
}

/// Vertical step of a dead branch, from a draw in `0..10`.
pub open spec fn dead_dy(roll: int) -> int {
    if roll <= 2 {
        -1
    } else if roll <= 6 {
        0
    } else {
        1
    }
}

/// The step `(dx, dy)` that the movement rule takes for the given draws.
pub open spec fn deltas_from_rolls(
    bt: BranchType,
    life: int,
    age: int,
    multiplier: int,
    first: int,
    second: int,
) -> (int, int) {
    match bt {
        BranchType::Trunk => {
            if age <= 2 || life < 4 {
                (first, 0)
            } else if age < multiplier * 3 {
                (trunk_middle_dx(first), if age % (multiplier / 2) == 0 { -1 } else { 0 })
            } else {
                (second, if first > 2 { -1 } else { 0 })
            }
        },
        BranchType::ShootLeft => (shoot_left_dx(second), shoot_dy(first)),
        BranchType::ShootRight => (shoot_right_dx(second), shoot_dy(first)),
        BranchType::Dying => (dying_dx(second), dying_dy(first)),
        BranchType::Dead => (second, dead_dy(first)),
    }
}

/// `(dx, dy)` is a step that the movement rule can take.
pub open spec fn deltas_possible(
    bt: BranchType,
    life: int,
    age: int,
    multiplier: int,
    dx: int,
    dy: int,
) -> bool {
    exists|first: int, second: int|
        #![trigger deltas_from_rolls(bt, life, age, multiplier, first, second)]
        rolls_in_range(bt, life, age, multiplier, first, second) && deltas_from_rolls(
            bt,
            life,
            age,
            multiplier,
            first,
            second,
        ) == (dx, dy)
}

/// The ranges of the draws that the movement rule makes for a branch of this
/// type, life and age.
pub fn roll_ranges(branch_type: &BranchType, life: i32, age: i32, multiplier: i32) -> (r: (
    (i32, i32),
    Option<(i32, i32)>,
))
    requires
        *branch_type is Trunk ==> deltas_safe(life as int, age as int, multiplier as int),
    ensures
        ({
            let (s1, s2) = spec_roll_ranges(*branch_type, life as int, age as int, multiplier as int);
            &&& r.0.0 == s1.0 && r.0.1 == s1.1
            &&& match s2 {
                Some(s) => r.1 matches Some(q) && q.0 == s.0 && q.1 == s.1,
                None => r.1 is None,
            }
        }),
{
    match branch_type {
        BranchType::Trunk => {
            if age <= 2 || life < 4 {
                ((-1, 2), None)
            } else if age < multiplier * 3 {
                ((0, 10), None)
            } else {
                ((0, 10), Some((-1, 2)))
            }
        },
        BranchType::ShootLeft => ((0, 10), Some((0, 10))),
        BranchType::ShootRight => ((0, 10), Some((0, 10))),
        BranchType::Dying => ((0, 10), Some((0, 15))),
        BranchType::Dead => ((0, 10), Some((-1, 2))),
    }
}

/// The step that the movement rule takes for the given draws.
pub fn deltas_for_rolls(
    branch_type: &BranchType,
    life: i32,
    age: i32,
    multiplier: i32,
    first: i32,
    second: i32,
) -> (d: (i32, i32))
    requires
        *branch_type is Trunk ==> deltas_safe(life as int, age as int, multiplier as int),
    ensures
        (d.0 as int, d.1 as int) == deltas_from_rolls(
            *branch_type,
            life as int,
            age as int,
            multiplier as int,
            first as int,
            second as int,
        ),
{
    match branch_type {
        BranchType::Trunk => {
            if age <= 2 || life < 4 {
                (first, 0)
            } else if age < multiplier * 3 {
                let dy: i32 = if age % (multiplier / 2) == 0 { -1 } else { 0 };
                let dx: i32 = if first == 0 {
                    -2
                } else if first <= 3 {
                    -1
                } else if first <= 5 {
                    0
                } else if first <= 8 {
                    1
                } else {
                    2
                };
                (dx, dy)
            } else {
                (second, if first > 2 { -1 } else { 0 })
            }
        },
        BranchType::ShootLeft => {
            let dy: i32 = if first <= 1 { -1 } else if first <= 7 { 0 } else { 1 };
            let dx: i32 = if second <= 1 { -2 } else if second <= 5 { -1 } else if second <= 8 { 0 } else { 1 };
            (dx, dy)
        },
        BranchType::ShootRight => {
            let dy: i32 = if first <= 1 { -1 } else if first <= 7 { 0 } else { 1 };
            let dx: i32 = if second <= 1 { 2 } else if second <= 5 { 1 } else if second <= 8 { 0 } else { -1 };
            (dx, dy)
        },
        BranchType::Dying => {
            let dy: i32 = if first <= 1 { -1 } else if first <= 8 { 0 } else { 1 };
            let dx: i32 = if second == 0 {
                -3
            } else if second <= 2 {
                -2
            } else if second <= 5 {
                -1
            } else if second <= 8 {
                0
            } else if second <= 11 {
                1
            } else if second <= 13 {
                2
            } else {
                3
            };
            (dx, dy)
        },
        BranchType::Dead => {
            let dy: i32 = if first <= 2 { -1 } else if first <= 6 { 0 } else { 1 };
            (second, dy)
        },
    }
}

/// Chooses the next step of a branch, drawing from `rng` as the movement rule
/// says. Whatever the draws are, the step is one that the rule can take.
pub fn set_deltas(
    branch_type: &BranchType,
    life: i32,
    age: i32,
    multiplier: i32,
    rng: &mut StdRng,
) -> (d: (i32, i32))
    requires
        *branch_type is Trunk ==> deltas_safe(life as int, age as int, multiplier as int),
    ensures
        deltas_possible(
            *branch_type,
            life as int,
            age as int,
            multiplier as int,
            d.0 as int,
            d.1 as int,
        ),
        step_in_range(*branch_type, d.0 as int, d.1 as int),
        -3 <= d.0 <= 3,
        -1 <= d.1 <= 1,
{
    let (first_range, second_range) = roll_ranges(branch_type, life, age, multiplier);
    let first = gen_range(rng, first_range.0, first_range.1);
    let second = match second_range {
        Some((lo, hi)) => gen_range(rng, lo, hi),
        None => 0,
    };
    let d = deltas_for_rolls(branch_type, life, age, multiplier, first, second);
    proof {
        lemma_deltas_bounded(*branch_type, life as int, age as int, multiplier as int, first as int, second as int);
        assert(deltas_from_rolls(*branch_type, life as int, age as int, multiplier as int, first as int, second as int) == (d.0 as int, d.1 as int));
    }
    d
}

/// The steps a branch of type `bt` can take: trunks never go down and move at
/// most two cells sideways, left shoots lean left and right shoots right (each
/// the mirror of the other), dying branches move up to three cells sideways and
/// dead ones one; no branch moves more than one row.
pub open spec fn step_in_range(bt: BranchType, dx: int, dy: int) -> bool {
    &&& -1 <= dy <= 1
    &&& match bt {
        BranchType::Trunk => -2 <= dx <= 2 && dy <= 0,
        BranchType::ShootLeft => -2 <= dx <= 1,
        BranchType::ShootRight => -1 <= dx <= 2,
        BranchType::Dying => -3 <= dx <= 3,
        BranchType::Dead => -1 <= dx <= 1,
    }
}

/// Every step that the movement rule can take lies in the range of its branch type.
pub proof fn lemma_possible_steps_in_range(bt: BranchType, life: int, age: int, multiplier: int, dx: int, dy: int)
    requires
        deltas_possible(bt, life, age, multiplier, dx, dy),
    ensures
        step_in_range(bt, dx, dy),
{
    let (first, second) = choose|first: int, second: int|
        rolls_in_range(bt, life, age, multiplier, first, second) && deltas_from_rolls(
            bt,
            life,
            age,
            multiplier,
            first,
            second,
        ) == (dx, dy);
    lemma_deltas_bounded(bt, life, age, multiplier, first, second);
}

/// Every step that the movement rule takes moves at most three cells sideways
/// and at most one up or down, within the range of its branch type.
pub proof fn lemma_deltas_bounded(bt: BranchType, life: int, age: int, multiplier: int, first: int, second: int)
    requires
        rolls_in_range(bt, life, age, multiplier, first, second),
    ensures
        -3 <= deltas_from_rolls(bt, life, age, multiplier, first, second).0 <= 3,
        -1 <= deltas_from_rolls(bt, life, age, multiplier, first, second).1 <= 1,
        step_in_range(
            bt,
            deltas_from_rolls(bt, life, age, multiplier, first, second).0,
            deltas_from_rolls(bt, life, age, multiplier, first, second).1,
        ),
{
}

// ---------------------------------------------------------------------------
// Glyphs
// ---------------------------------------------------------------------------

/// The glyph that a branch of type `bt` leaves after a step `(dx, dy)`, with
/// `life` steps left. Branches near their end always leave a leaf, `&`.
pub open spec fn glyph_for(bt: BranchType, life: int, dx: int, dy: int) -> Seq<char> {
    if life < 4 {
        "&"@
    } else {
        match bt {
            BranchType::Trunk => {
                if dx == 0 && dy == 0 {
                    "/~"@
                } else if dx < 0 {
                    "\\|"@
                } else if dx == 0 {
                    "/|\\"@
                } else {
                    "|/"@
                }
            },
            BranchType::ShootLeft => {
                if dy > 0 {
                    "\\"@
                } else if dx == 0 && dy == 0 {
                    "\\_"@
                } else if dx < 0 {
                    "\\|"@
                } else if dx == 0 {
                    "/|"@
                } else {
                    "/"@
                }
            },
            BranchType::ShootRight => {
                if dy > 0 {
                    "/"@
                } else if dx == 0 && dy == 0 {
                    "_/"@
                } else if dx < 0 {
                    "\\|"@
                } else if dx == 0 {
                    "/|"@
                } else {
                    "/"@
                }
            },
            BranchType::Dying => "&"@,
            BranchType::Dead => "&"@,
        }
    }
}

/// The glyph that a branch leaves after a step `(dx, dy)` with `life` steps left.
pub fn choose_string(branch_type: &BranchType, life: i32, dx: i32, dy: i32) -> (s: String)
    ensures
        s@ == glyph_for(*branch_type, life as int, dx as int, dy as int),
        life < 4 || *branch_type is Dying || *branch_type is Dead ==> s@ == "&"@,
{
    let mut branch_str = match branch_type {
        BranchType::Trunk => {
            if dx == 0 && dy == 0 {
                "/~".to_string()
            } else if dx < 0 {
                "\\|".to_string()
            } else if dx == 0 {
                "/|\\".to_string()
            } else {
                "|/".to_string()
            }
        },
        BranchType::ShootLeft => {
            if dy > 0 {
                "\\".to_string()
            } else if dx == 0 && dy == 0 {
                "\\_".to_string()
            } else if dx < 0 {
                "\\|".to_string()
            } else if dx == 0 {
                "/|".to_string()
            } else {
                "/".to_string()
            }
        },
        BranchType::ShootRight => {
            if dy > 0 {
                "/".to_string()
            } else if dx == 0 && dy == 0 {
                "_/".to_string()
            } else if dx < 0 {
                "\\|".to_string()
            } else if dx == 0 {
                "/|".to_string()
            } else {
                "/".to_string()
            }
        },
        BranchType::Dying | BranchType::Dead => "&".to_string(),
    };
    if life < 4 {
        branch_str = "&".to_string();
    }
    branch_str
}

// ---------------------------------------------------------------------------
// Colours
// ---------------------------------------------------------------------------

/// The draw for a glyph's colour is taken from `0..color_roll_bound(bt)`.
pub open spec fn color_roll_bound(bt: BranchType) -> int {
    match bt {
        BranchType::Trunk => 2,
        BranchType::ShootLeft => 2,
        BranchType::ShootRight => 2,
        BranchType::Dying => 10,
        BranchType::Dead => 3,
    }
}

/// The style that a glyph of a branch of type `bt` gets for a colour draw:
/// a draw of 0 makes it bold. Wood is yellow (bright when bold), dying
/// branches green and dead ones bright green, always on the default background.
pub open spec fn style_from_roll(bt: BranchType, roll: int) -> Style {
    match bt {
        BranchType::Dying => Style {
            attribute: if roll == 0 { FontStyle::Bold } else { FontStyle::Reset },
            foreground_color: 2,
            background_color: 0,
        },
        BranchType::Dead => Style {
            attribute: if roll == 0 { FontStyle::Bold } else { FontStyle::Reset },
            foreground_color: 10,
            background_color: 0,
        },
        _ => {
            if roll == 0 {
                Style { attribute: FontStyle::Bold, foreground_color: 11, background_color: 0 }
            } else {
                Style { attribute: FontStyle::Reset, foreground_color: 3, background_color: 0 }
            }
        },
    }
}

/// `s` is a style that a glyph of a branch of type `bt` can get.
pub open spec fn style_possible(bt: BranchType, s: Style) -> bool {
    exists|roll: int|
        #![trigger style_from_roll(bt, roll)]
        0 <= roll < color_roll_bound(bt) && style_from_roll(bt, roll) == s
}

/// The end of the range `0..end` of the colour draw for a glyph of a branch.
pub fn color_roll_range(branch_type: &BranchType) -> (end: i32)
    ensures
        end == color_roll_bound(*branch_type),
{
    match branch_type {
        BranchType::Trunk | BranchType::ShootLeft | BranchType::ShootRight => 2,
        BranchType::Dying => 10,
        BranchType::Dead => 3,
    }
}

/// The style that a glyph of a branch gets for the colour draw `roll`.
pub fn style_for_roll(branch_type: &BranchType, roll: i32) -> (s: Style)
    ensures
        s == style_from_roll(*branch_type, roll as int),
{
    let mut style = Style { attribute: FontStyle::Reset, foreground_color: 0, background_color: 0 };
    match branch_type {
        BranchType::Trunk | BranchType::ShootLeft | BranchType::ShootRight => {
            if roll == 0 {
                style.attribute = FontStyle::Bold;
                style.foreground_color = 11;
            } else {
                style.foreground_color = 3;
            }
        },
        BranchType::Dying => {
            if roll == 0 {
                style.attribute = FontStyle::Bold;
                style.foreground_color = 2;
            } else {
                style.foreground_color = 2;
            }
        },
        BranchType::Dead => {
            if roll == 0 {
                style.attribute = FontStyle::Bold;
                style.foreground_color = 10;
            } else {
                style.foreground_color = 10;
            }
        },
    }
    style
}

/// Chooses the style of a branch's glyph with one draw from `rng`.
/// It never fails; whatever the draw is, the style is one the branch can get.
pub fn choose_color(branch_type: &BranchType, rng: &mut StdRng) -> (r: Result<Style, std::io::Error>)
    ensures
        r matches Ok(s) && style_possible(*branch_type, s),
        r matches Ok(s) && s.background_color == 0 && match *branch_type {
            BranchType::Dying => s.foreground_color == 2,
            BranchType::Dead => s.foreground_color == 10,
            _ => s.foreground_color == 3 || s.foreground_color == 11,
        },
{
    let bound = color_roll_range(branch_type);
    let roll = gen_range(rng, 0, bound);
    let style = style_for_roll(branch_type, roll);
    proof {
        assert(style_from_roll(*branch_type, roll as int) == style);
    }
    Ok(style)
}

// ---------------------------------------------------------------------------
// Sub-branches
// ---------------------------------------------------------------------------

/// Trunks and shoots grow sub-branches; dying and dead branches only die off.
pub open spec fn is_growing(bt: BranchType) -> bool {
    bt is Trunk || bt is ShootLeft || bt is ShootRight
}

/// A step with `life` steps left after it draws for a new branch
/// (from `0..3`): a trunk that is neither near its end nor stopped.
pub open spec fn needs_branch_roll(bt: BranchType, life: int, multiplier: int) -> bool {
    &&& life >= 3
    &&& bt is Trunk
    &&& multiplier <= i32::MAX - 2
    &&& !(life < multiplier + 2)
}

/// After the branch draw `first`, the step draws for a sprout (from `0..8`).
pub open spec fn needs_sprout_roll(bt: BranchType, life: int, multiplier: int, first: int) -> bool {
    &&& needs_branch_roll(bt, life, multiplier)
    &&& (first == 0 || (multiplier != 0 && life % multiplier == 0))
}

/// After the sprout draw `second`, the step draws the extra life of a new
/// trunk (from `-2..3`).
pub open spec fn needs_extra_roll(bt: BranchType, life: int, multiplier: int, first: int, second: int) -> bool {
    &&& needs_sprout_roll(bt, life, multiplier, first)
    &&& second == 0
    &&& life > 7
    &&& i32::MIN / 2 <= multiplier <= i32::MAX / 2
}

/// `first`, `second` and `third` are draws that a step can make: each that is
/// made lies in its range, and each that is not made is 0.
pub open spec fn sprout_rolls_in_range(
    bt: BranchType,
    life: int,
    multiplier: int,
    first: int,
    second: int,
    third: int,
) -> bool {
    &&& if needs_branch_roll(bt, life, multiplier) { 0 <= first < 3 } else { first == 0 }
    &&& if needs_sprout_roll(bt, life, multiplier, first) { 0 <= second < 8 } else { second == 0 }
    &&& if needs_extra_roll(bt, life, multiplier, first, second) { -2 <= third < 3 } else { third == 0 }
}

/// What one step of a branch of type `bt`, with `life` steps left after it,
/// decides about sub-branches for the given draws: whether the branch stops
/// (where the rules' arithmetic would overflow), the sub-branch it starts (type
/// and life) if any, and the new shoot cooldown.
///
/// With fewer than three steps left it starts a dead branch; a trunk or shoot
/// whose life is below `multiplier + 2` starts a dying one. A trunk that draws
/// 0 from `0..3`, or whose life is a multiple of the multiplier, then sprouts:
/// on a 0 from `0..8` with more than seven steps left it resets the cooldown to
/// twice the multiplier and starts a trunk with the extra life drawn from
/// `-2..3`; otherwise, once the cooldown has run out, it resets it and starts a
/// shoot with the multiplier added to its life, to the left when the shoot
/// counter after the count is even. A sub-branch whose life or counters would
/// overflow, or beyond `i32::MAX` started branches, is not started.
pub open spec fn sprout_from_rolls(
    bt: BranchType,
    life: int,
    multiplier: int,
    cooldown: int,
    branches: int,
    shoots: int,
    counter: int,
    first: int,
    second: int,
    third: int,
) -> (bool, Option<(BranchType, int)>, int) {
    let room = branches < i32::MAX;
    if life < 3 {
        (false, if room { Some((BranchType::Dead, life)) } else { None }, cooldown)
    } else if is_growing(bt) && multiplier > i32::MAX - 2 {
        (true, None, cooldown)
    } else if is_growing(bt) && life < multiplier + 2 {
        (false, if room { Some((BranchType::Dying, life)) } else { None }, cooldown)
    } else if !(bt is Trunk) {
        (false, None, cooldown)
    } else if first != 0 && multiplier == 0 {
        (true, None, cooldown)
    } else if !(first == 0 || life % multiplier == 0) {
        (false, None, cooldown)
    } else if second == 0 && life > 7 {
        if !(i32::MIN / 2 <= multiplier <= i32::MAX / 2) {
            (false, None, cooldown)
        } else if (third <= 0 || life <= i32::MAX - third) && room {
            (false, Some((BranchType::Trunk, life + third)), 2 * multiplier)
        } else {
            (false, None, 2 * multiplier)
        }
    } else if cooldown <= 0 {
        if !(i32::MIN / 2 <= multiplier <= i32::MAX / 2) {
            (false, None, cooldown)
        } else if (multiplier <= 0 || life <= i32::MAX - multiplier) && room && shoots < i32::MAX
            && counter < i32::MAX {
            (
                false,
                Some(
                    (
                        if (counter + 1) % 2 == 0 {
                            BranchType::ShootLeft
                        } else {
                            BranchType::ShootRight
                        },
                        life + multiplier,
                    ),
                ),
                2 * multiplier,
            )
        } else {
            (false, None, 2 * multiplier)
        }
    } else {
        (false, None, cooldown)
    }
}

/// The decision of one step about sub-branches, as `sprout_from_rolls` gives it.
pub struct SproutChoice {
    pub stop: bool,
    pub child: Option<(BranchType, i32)>,
    pub shoot_cooldown: i32,
}

/// What one step of a branch decides about sub-branches for the given draws.
pub fn sprout_for_rolls(
    branch_type: &BranchType,
    life: i32,
    multiplier: i32,
    shoot_cooldown: i32,
    branches: i32,
    shoots: i32,
    shoot_counter: i32,
    first: i32,
    second: i32,
    third: i32,
) -> (c: SproutChoice)
    ensures
        ({
            let (stop, child, cooldown) = sprout_from_rolls(
                *branch_type,
                life as int,
                multiplier as int,
                shoot_cooldown as int,
                branches as int,
                shoots as int,
                shoot_counter as int,
                first as int,
                second as int,
                third as int,
            );
            &&& c.stop == stop
            &&& c.shoot_cooldown == cooldown
            &&& match child {
                Some((t, l)) => c.child matches Some(q) && q.0 == t && q.1 == l,
                None => c.child is None,
            }
        }),
{
    let room = branches < i32::MAX;
    let growing = match branch_type {
        BranchType::Trunk | BranchType::ShootLeft | BranchType::ShootRight => true,
        _ => false,
    };
    let is_trunk = match branch_type {
        BranchType::Trunk => true,
        _ => false,
    };
    if life < 3 {
        let child = if room { Some((BranchType::Dead, life)) } else { None };
        return SproutChoice { stop: false, child, shoot_cooldown };
    }
    if growing && multiplier > i32::MAX - 2 {
        return SproutChoice { stop: true, child: None, shoot_cooldown };
    }
    if growing && life < multiplier + 2 {
        let child = if room { Some((BranchType::Dying, life)) } else { None };
        return SproutChoice { stop: false, child, shoot_cooldown };
    }
    if !is_trunk {
        return SproutChoice { stop: false, child: None, shoot_cooldown };
    }
    if first != 0 && multiplier == 0 {
        return SproutChoice { stop: true, child: None, shoot_cooldown };
    }
    if !(first == 0 || life % multiplier == 0) {
        return SproutChoice { stop: false, child: None, shoot_cooldown };
    }
    let doubles = i32::MIN / 2 <= multiplier && multiplier <= i32::MAX / 2;
    if second == 0 && life > 7 {
        if !doubles {
            SproutChoice { stop: false, child: None, shoot_cooldown }
        } else if (third <= 0 || life <= i32::MAX - third) && room {
            SproutChoice {
                stop: false,
                child: Some((BranchType::Trunk, life + third)),
                shoot_cooldown: multiplier * 2,
            }
        } else {
            SproutChoice { stop: false, child: None, shoot_cooldown: multiplier * 2 }
        }
    } else if shoot_cooldown <= 0 {
        if !doubles {
            SproutChoice { stop: false, child: None, shoot_cooldown }
        } else if (multiplier <= 0 || life <= i32::MAX - multiplier) && room && shoots < i32::MAX
            && shoot_counter < i32::MAX {
            let next_counter = shoot_counter + 1;
            let direction = if next_counter % 2 == 0 {
                BranchType::ShootLeft
            } else {
                BranchType::ShootRight
            };
            SproutChoice {
                stop: false,
                child: Some((direction, life + multiplier)),
                shoot_cooldown: multiplier * 2,
            }
        } else {
            SproutChoice { stop: false, child: None, shoot_cooldown: multiplier * 2 }
        }
    } else {
        SproutChoice { stop: false, child: None, shoot_cooldown }
    }
}

// ---------------------------------------------------------------------------
// Laws
// ---------------------------------------------------------------------------

/// In its middle phase (older than two steps, at least four steps left, age
/// below three times the multiplier) a trunk climbs exactly on the ages that
/// are multiples of half the multiplier, and stays level otherwise, whatever
/// the draws; every step that the movement rule can take there does so.
pub proof fn lemma_middle_trunk_climbs(life: int, age: int, multiplier: int, first: int, second: int, dx: int, dy: int)
    requires
        age > 2,
        life >= 4,
        age < 3 * multiplier,
    ensures
        deltas_from_rolls(BranchType::Trunk, life, age, multiplier, first, second).1 == (if age % (
        multiplier / 2) == 0 {
            -1int
        } else {
            0
        }),
        deltas_possible(BranchType::Trunk, life, age, multiplier, dx, dy) ==> dy == (if age % (
        multiplier / 2) == 0 {
            -1int
        } else {
            0
        }),
{
    if deltas_possible(BranchType::Trunk, life, age, multiplier, dx, dy) {
        let (f, g) = choose|f: int, g: int|
            rolls_in_range(BranchType::Trunk, life, age, multiplier, f, g) && deltas_from_rolls(
                BranchType::Trunk,
                life,
                age,
                multiplier,
                f,
                g,
            ) == (dx, dy);
        assert(deltas_from_rolls(BranchType::Trunk, life, age, multiplier, f, g) == (dx, dy));
    }
}

/// With a multiplier of 2 or 3 (3 is the default), a trunk in its middle phase
/// climbs on every step.
pub proof fn lemma_small_multiplier_trunk_always_climbs(life: int, age: int, multiplier: int, dx: int, dy: int)
    requires
        2 <= multiplier <= 3,
        age > 2,
        life >= 4,
        age < 3 * multiplier,
        deltas_possible(BranchType::Trunk, life, age, multiplier, dx, dy),
    ensures
        dy == -1,
{
    lemma_middle_trunk_climbs(life, age, multiplier, 0, 0, dx, dy);
    assert(multiplier / 2 == 1);
    assert(age % 1 == 0);
}

/// The glyph of a trunk with at least four steps left shows its step: `/~`
/// when it stays in place, `\|` when it moves left, `/|\` when it only climbs
/// or sinks, and `|/` whenever it moves right, whatever it does vertically.
pub proof fn lemma_trunk_glyph_shows_step(life: int, dx: int, dy: int)
    requires
        life >= 4,
    ensures
        dx == 0 && dy == 0 ==> glyph_for(BranchType::Trunk, life, dx, dy) == "/~"@,
        dx < 0 ==> glyph_for(BranchType::Trunk, life, dx, dy) == "\\|"@,
        dx == 0 && dy != 0 ==> glyph_for(BranchType::Trunk, life, dx, dy) == "/|\\"@,
        dx > 0 ==> glyph_for(BranchType::Trunk, life, dx, dy) == "|/"@,
        glyph_for(BranchType::Trunk, life, dx, dy) == "/~"@ ==> dx == 0 && dy == 0,
{
    reveal_strlit("/~");
    reveal_strlit("\\|");
    reveal_strlit("/|\\");
    reveal_strlit("|/");
    if glyph_for(BranchType::Trunk, life, dx, dy) == "/~"@ {
        assert("/~"@ != "\\|"@) by {
            assert("/~"@[0] != "\\|"@[0]);
        }
        assert("/~"@ != "|/"@) by {
            assert("/~"@[0] != "|/"@[0]);
        }
        assert("/~"@.len() != "/|\\"@.len());
    }
}

/// Shoots lean to their side: a shoot that sinks leaves `\` on the left and
/// `/` on the right; a level shoot that stays in place leaves `\_` on the left
/// and `_/` on the right.
pub proof fn lemma_shoot_glyph_shows_side(life: int, dx: int, dy: int)
    requires
        life >= 4,
    ensures
        dy > 0 ==> glyph_for(BranchType::ShootLeft, life, dx, dy) == "\\"@,
        dy > 0 ==> glyph_for(BranchType::ShootRight, life, dx, dy) == "/"@,
        dx == 0 && dy == 0 ==> glyph_for(BranchType::ShootLeft, life, dx, dy) == "\\_"@,
        dx == 0 && dy == 0 ==> glyph_for(BranchType::ShootRight, life, dx, dy) == "_/"@,
{
}

/// A trunk or shoot that is not near its end but whose life is below
/// `multiplier + 2` starts a dying branch with all its life, whatever the
/// draws and the cooldown, and goes on with its cooldown unchanged (given room
/// for one more branch).
pub proof fn lemma_growing_branches_start_dying(
    bt: BranchType,
    life: int,
    multiplier: int,
    cooldown: int,
    branches: int,
    shoots: int,
    counter: int,
    first: int,
    second: int,
    third: int,
)
    requires
        bt is Trunk || bt is ShootLeft || bt is ShootRight,
        3 <= life,
        life < multiplier + 2,
        multiplier <= i32::MAX - 2,
        branches < i32::MAX,
    ensures
        sprout_from_rolls(bt, life, multiplier, cooldown, branches, shoots, counter, first, second, third)
            == (false, Some((BranchType::Dying, life)), cooldown),
{
}

/// Every branch with fewer than three steps left starts a dead branch with
/// that life (given room for one more branch), and never stops.
pub proof fn lemma_late_branches_start_dead(
    bt: BranchType,
    life: int,
    multiplier: int,
    cooldown: int,
    branches: int,
    shoots: int,
    counter: int,
    first: int,
    second: int,
    third: int,
)
    requires
        life < 3,
        branches < i32::MAX,
    ensures
        sprout_from_rolls(bt, life, multiplier, cooldown, branches, shoots, counter, first, second, third)
            == (false, Some((BranchType::Dead, life)), cooldown),
{
}

/// Shoots alternate: of two shoots started from consecutive shoot counters,
/// one grows left and the other right, both with the multiplier added to the
/// life, resetting the cooldown to twice the multiplier.
pub proof fn lemma_shoots_alternate(
    life: int,
    multiplier: int,
    cooldown: int,
    branches: int,
    shoots: int,
    counter: int,
    first: int,
    second: int,
    third: int,
)
    requires
        life >= 3,
        !(life < multiplier + 2),
        1 <= multiplier <= i32::MAX / 2,
        life <= i32::MAX - multiplier,
        cooldown <= 0,
        first == 0,
        second != 0,
        branches < i32::MAX,
        shoots < i32::MAX - 1,
        counter < i32::MAX - 1,
    ensures
        ({
            let a = sprout_from_rolls(BranchType::Trunk, life, multiplier, cooldown, branches, shoots,
                counter, first, second, third);
            let b = sprout_from_rolls(BranchType::Trunk, life, multiplier, cooldown, branches, shoots
                + 1, counter + 1, first, second, third);
            &&& a.1 is Some
            &&& b.1 is Some
            &&& a.1.unwrap().1 == life + multiplier
            &&& b.1.unwrap().1 == life + multiplier
            &&& (a.1.unwrap().0 is ShootLeft && b.1.unwrap().0 is ShootRight) || (a.1.unwrap().0 is ShootRight
                && b.1.unwrap().0 is ShootLeft)
            &&& a.2 == 2 * multiplier
            &&& b.2 == 2 * multiplier
        }),
{
    assert((counter + 1) % 2 == 0 <==> (counter + 2) % 2 != 0);
}

/// A sprouting trunk with more than seven steps left that draws 0 for a
/// sprout starts another trunk whose life is its own plus the extra draw,
/// resetting the cooldown to twice the multiplier.
pub proof fn lemma_trunk_sprouts_trunk(
    life: int,
    multiplier: int,
    cooldown: int,
    branches: int,
    shoots: int,
    counter: int,
    third: int,
)
    requires
        life > 7,
        !(life < multiplier + 2),
        1 <= multiplier <= i32::MAX / 2,
        -2 <= third < 3,
        life + third <= i32::MAX,
        branches < i32::MAX,
    ensures
        sprout_from_rolls(BranchType::Trunk, life, multiplier, cooldown, branches, shoots, counter, 0, 0, third)
            == (false, Some((BranchType::Trunk, life + third)), 2 * multiplier),
{
}

/// A trunk sprouts only on a 0 from its branch draw or on a life that is a
/// multiple of the multiplier: otherwise it starts nothing and keeps its cooldown.
pub proof fn lemma_trunk_without_sprout(
    life: int,
    multiplier: int,
    cooldown: int,
    branches: int,
    shoots: int,
    counter: int,
    first: int,
    second: int,
    third: int,
)
    requires
        life >= 3,
        !(life < multiplier + 2),
        multiplier != 0,
        multiplier <= i32::MAX - 2,
        first != 0,
        life % multiplier != 0,
    ensures
        sprout_from_rolls(BranchType::Trunk, life, multiplier, cooldown, branches, shoots, counter, first, second, third)
            == (false, Option::<(BranchType, int)>::None, cooldown),
{
}

/// Left and right shoots are mirror images: for the same draws they take the
/// same vertical step and opposite sideways steps.
pub proof fn lemma_shoots_mirror(life: int, age: int, multiplier: int, first: int, second: int)
    ensures
        deltas_from_rolls(BranchType::ShootRight, life, age, multiplier, first, second).0 == -deltas_from_rolls(
            BranchType::ShootLeft,
            life,
            age,
            multiplier,
            first,
            second,
        ).0,
        deltas_from_rolls(BranchType::ShootRight, life, age, multiplier, first, second).1
            == deltas_from_rolls(BranchType::ShootLeft, life, age, multiplier, first, second).1,
{
}

} // verus!
