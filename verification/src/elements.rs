//! The material catalog: kind codes, names, physical constants, the
//! reaction-rule table, and the cell factories.
//!
//! Code 0 is the reserved uninitialized/fallback sentinel.  Codes, once
//! assigned, are never reused: the registry keeps a high-water mark that
//! only grows, even when a material is removed from the lookup lists.

use vstd::prelude::*;
use crate::fixed::clamp_spec;
use crate::pixel::{params_ok, vel_ok, Pixel, Rgba, DENSITY_MAX, FORCE_MAX, FRICTION_MAX, MULT_MAX};
use crate::rng::SimRng;

verus! {

/// The registry of material kinds and their reaction rules.
pub struct ElementList {
    /// Kind names, parallel to `element_codes`.
    pub elements: Vec<String>,
    /// Kind codes, parallel to `elements`, strictly ascending.
    pub element_codes: Vec<u8>,
    /// The reaction table: `(input, catalyst, output)` triples.
    pub interactivity: Vec<(u8, u8, u8)>,
    /// The next code `_add` will assign; larger than every assigned code.
    pub next_code: u8,
}

/// The registry's lists stay parallel and its codes strictly ascending and
/// below the high-water mark, so a code is never assigned twice.
pub open spec fn registry_wf(r: ElementList) -> bool {
    &&& r.elements@.len() == r.element_codes@.len()
    &&& forall|i: int, j: int|
        0 <= i < j < r.element_codes@.len() ==> r.element_codes@[i] < r.element_codes@[j]
    &&& forall|i: int|
        0 <= i < r.element_codes@.len() ==> r.element_codes@[i] < r.next_code
}

/// The built-in reaction rules: water + lava gives air, lava + water gives
/// stone, lava + sand gives smoke, sand + lava gives glass, wood + lava
/// gives smoke.
pub open spec fn rules_table() -> Seq<(u8, u8, u8)> {
    seq![(3u8, 4u8, 1u8), (4u8, 3u8, 5u8), (4u8, 2u8, 8u8), (2u8, 4u8, 9u8), (7u8, 4u8, 8u8)]
}

/// The code the name-to-code lookup yields, scanning from entry `i`:
/// the code of the first entry whose name matches, or the sentinel 0.
pub open spec fn code_lookup(names: Seq<String>, codes: Seq<u8>, name: Seq<char>, i: int) -> u8
    decreases names.len() - i,
{
    if i < 0 || i >= names.len() || i >= codes.len() {
        0
    } else if names[i]@ == name {
        codes[i]
    } else {
        code_lookup(names, codes, name, i + 1)
    }
}

/// The name the code-to-name lookup yields, scanning from entry `i`:
/// the name of the first entry whose code matches, or "default".
pub open spec fn name_lookup(names: Seq<String>, codes: Seq<u8>, code: u8, i: int) -> Seq<char>
    decreases codes.len() - i,
{
    if i < 0 || i >= names.len() || i >= codes.len() {
        "default"@
    } else if codes[i] == code {
        names[i]@
    } else {
        name_lookup(names, codes, code, i + 1)
    }
}

/// The index of the first entry with this name, or -1.
pub open spec fn find_name_idx(names: Seq<String>, name: Seq<char>, i: int) -> int
    decreases names.len() - i,
{
    if i < 0 || i >= names.len() {
        -1
    } else if names[i]@ == name {
        i
    } else {
        find_name_idx(names, name, i + 1)
    }
}

/// The `(catalyst, output)` pairs of the rules whose input kind is `code`,
/// scanning the table from entry `i`, in table order.
pub open spec fn reactions_from(table: Seq<(u8, u8, u8)>, code: u8, i: int) -> Seq<(u8, u8)>
    decreases table.len() - i,
{
    if i < 0 || i >= table.len() {
        Seq::empty()
    } else if table[i].0 == code {
        seq![(table[i].1, table[i].2)] + reactions_from(table, code, i + 1)
    } else {
        reactions_from(table, code, i + 1)
    }
}

/// The output of the first pair whose catalyst is `cat`, if any.
pub open spec fn find_output_spec(pairs: Seq<(u8, u8)>, cat: u8, i: int) -> Option<u8>
    decreases pairs.len() - i,
{
    if i < 0 || i >= pairs.len() {
        None
    } else if pairs[i].0 == cat {
        Some(pairs[i].1)
    } else {
        find_output_spec(pairs, cat, i + 1)
    }
}

impl ElementList {
    /// The built-in catalog: ten kinds under codes 0 through 9 and the
    /// five-rule reaction table.
    pub fn new() -> (r: ElementList)
        ensures
            registry_wf(r),
            r.elements@.len() == 10,
            r.element_codes@.len() == 10,
            r.elements@[0]@ == "default"@,
            r.elements@[1]@ == "air"@,
            r.elements@[2]@ == "sand"@,
            r.elements@[3]@ == "water"@,
            r.elements@[4]@ == "lava"@,
            r.elements@[5]@ == "stone"@,
            r.elements@[6]@ == "brick"@,
            r.elements@[7]@ == "wood"@,
            r.elements@[8]@ == "smoke"@,
            r.elements@[9]@ == "glass"@,
            forall|i: int| 0 <= i < 10 ==> r.element_codes@[i] == i,
            r.interactivity@ == rules_table(),
    {
        let mut elements: Vec<String> = Vec::new();
        elements.push("default".to_owned());
        elements.push("air".to_owned());
        elements.push("sand".to_owned());
        elements.push("water".to_owned());
        elements.push("lava".to_owned());
        elements.push("stone".to_owned());
        elements.push("brick".to_owned());
        elements.push("wood".to_owned());
        elements.push("smoke".to_owned());
        elements.push("glass".to_owned());

        let mut element_codes: Vec<u8> = Vec::new();
        let mut c: u8 = 0;
        while c < 10
            invariant
                c <= 10,
                element_codes@.len() == c,
                forall|i: int| 0 <= i < c ==> element_codes@[i] == i,
            decreases 10 - c,
        {
            element_codes.push(c);
            c = c + 1;
        }

        let mut interactivity: Vec<(u8, u8, u8)> = Vec::new();
        interactivity.push((3, 4, 1));
        interactivity.push((4, 3, 5));
        interactivity.push((4, 2, 8));
        interactivity.push((2, 4, 9));
        interactivity.push((7, 4, 8));
        proof {
            assert(interactivity@ =~= rules_table());
        }

        ElementList { elements, element_codes, interactivity, next_code: 10 }
    }

    /// The code registered under a name; an unknown name yields the
    /// sentinel 0.
    pub fn _get(&self, index: String) -> (r: u8)
        requires
            registry_wf(*self),
        ensures
            r == code_lookup(self.elements@, self.element_codes@, index@, 0),
    {
        let n = self.elements.len();
        let mut i: usize = 0;
        while i < n
            invariant
                registry_wf(*self),
                n == self.elements@.len(),
                i <= n,
                code_lookup(self.elements@, self.element_codes@, index@, 0) == code_lookup(
                    self.elements@,
                    self.element_codes@,
                    index@,
                    i as int,
                ),
            decreases n - i,
        {
            if self.elements[i] == index {
                return self.element_codes[i];
            }
            i = i + 1;
        }
        0
    }

    /// The name registered under a code; an unknown code yields "default".
    pub fn get_name(&self, index: u8) -> (r: String)
        requires
            registry_wf(*self),
        ensures
            r@ == name_lookup(self.elements@, self.element_codes@, index, 0),
    {
        let n = self.elements.len();
        let mut i: usize = 0;
        while i < n
            invariant
                registry_wf(*self),
                n == self.elements@.len(),
                i <= n,
                name_lookup(self.elements@, self.element_codes@, index, 0) == name_lookup(
                    self.elements@,
                    self.element_codes@,
                    index,
                    i as int,
                ),
            decreases n - i,
        {
            if self.element_codes[i] == index {
                return self.elements[i].clone();
            }
            i = i + 1;
        }
        "default".to_owned()
    }

    /// How many kinds the lookup lists hold.
    pub fn _len(&self) -> (r: usize)
        ensures
            r == self.elements@.len(),
    {
        self.elements.len()
    }

    /// Register a new kind under the next unassigned code.  Once the code
    /// space is exhausted the registry stays as it is.
    pub fn _add(&mut self, name: String)
        requires
            registry_wf(*old(self)),
        ensures
            registry_wf(*final(self)),
            old(self).next_code < 255 ==> {
                &&& final(self).elements@ == old(self).elements@.push(name)
                &&& final(self).element_codes@ == old(self).element_codes@.push(
                    old(self).next_code,
                )
                &&& final(self).next_code == old(self).next_code + 1
            },
            old(self).next_code >= 255 ==> *final(self) == *old(self),
            final(self).interactivity@ == old(self).interactivity@,
    {
        if self.next_code < 255 {
            let code = self.next_code;
            self.elements.push(name);
            self.element_codes.push(code);
            self.next_code = code + 1;
        }
    }

    /// Remove the first kind registered under this name, if any, from the
    /// lookup lists.  Its code stays assigned and is never reused.
    pub fn _remove(&mut self, name: String)
        requires
            registry_wf(*old(self)),
        ensures
            registry_wf(*final(self)),
            final(self).interactivity@ == old(self).interactivity@,
            final(self).next_code == old(self).next_code,
            ({
                let k = find_name_idx(old(self).elements@, name@, 0);
                if k >= 0 {
                    &&& final(self).elements@ == old(self).elements@.remove(k)
                    &&& final(self).element_codes@ == old(self).element_codes@.remove(k)
                } else {
                    *final(self) == *old(self)
                }
            }),
    {
        let n = self.elements.len();
        let mut i: usize = 0;
        while i < n
            invariant
                registry_wf(*self),
                *self == *old(self),
                n == self.elements@.len(),
                i <= n,
                find_name_idx(self.elements@, name@, 0) == find_name_idx(
                    self.elements@,
                    name@,
                    i as int,
                ),
                forall|k: int| 0 <= k < i ==> self.elements@[k]@ != name@,
            decreases n - i,
        {
            if self.elements[i] == name {
                self.elements.remove(i);
                self.element_codes.remove(i);
                return ;
            }
            i = i + 1;
        }
    }

    /// The `(catalyst, output)` pairs of this input kind's rules, in table
    /// order.
    pub fn reactions_for(&self, code: u8) -> (r: Vec<(u8, u8)>)
        ensures
            r@ == reactions_from(self.interactivity@, code, 0),
    {
        let n = self.interactivity.len();
        let mut out: Vec<(u8, u8)> = Vec::new();
        let mut i: usize = 0;
        while i < n
            invariant
                n == self.interactivity@.len(),
                i <= n,
                reactions_from(self.interactivity@, code, 0) == out@ + reactions_from(
                    self.interactivity@,
                    code,
                    i as int,
                ),
            decreases n - i,
        {
            let entry = self.interactivity[i];
            if entry.0 == code {
                out.push((entry.1, entry.2));
                proof {
                    assert(out@ + reactions_from(self.interactivity@, code, i + 1) =~= out@.drop_last()
                        + (seq![(entry.1, entry.2)] + reactions_from(
                        self.interactivity@,
                        code,
                        i + 1,
                    )));
                }
            }
            i = i + 1;
        }
        proof {
            assert(out@ + reactions_from(self.interactivity@, code, n as int) =~= out@);
        }
        out
    }
}

/// The output of the first `(catalyst, output)` pair matching `cat`.
pub fn find_output(pairs: &Vec<(u8, u8)>, cat: u8) -> (r: Option<u8>)
    ensures
        r == find_output_spec(pairs@, cat, 0),
{
    let n = pairs.len();
    let mut i: usize = 0;
    while i < n
        invariant
            n == pairs@.len(),
            i <= n,
            find_output_spec(pairs@, cat, 0) == find_output_spec(pairs@, cat, i as int),
        decreases n - i,
    {
        let entry = pairs[i];
        if entry.0 == cat {
            return Some(entry.1);
        }
        i = i + 1;
    }
    None
}

/// The built-in table's rule lists for the kinds the reaction laws speak
/// of: water reacts with lava (to air), lava reciprocates with water (to
/// stone) and reacts with sand (to smoke); air and stone have no rules.
pub proof fn lemma_builtin_rules()
    ensures
        reactions_from(rules_table(), 1, 0) == Seq::<(u8, u8)>::empty(),
        reactions_from(rules_table(), 5, 0) == Seq::<(u8, u8)>::empty(),
        reactions_from(rules_table(), 3, 0) == seq![(4u8, 1u8)],
        reactions_from(rules_table(), 4, 0) == seq![(3u8, 5u8), (2u8, 8u8)],
{
    let t = rules_table();
    assert(t.len() == 5);
    assert(t[0] == (3u8, 4u8, 1u8));
    assert(t[1] == (4u8, 3u8, 5u8));
    assert(t[2] == (4u8, 2u8, 8u8));
    assert(t[3] == (2u8, 4u8, 9u8));
    assert(t[4] == (7u8, 4u8, 8u8));
    assert(reactions_from(t, 1, 5) == Seq::<(u8, u8)>::empty());
    assert(reactions_from(t, 1, 4) == Seq::<(u8, u8)>::empty());
    assert(reactions_from(t, 1, 3) == Seq::<(u8, u8)>::empty());
    assert(reactions_from(t, 1, 2) == Seq::<(u8, u8)>::empty());
    assert(reactions_from(t, 1, 1) == Seq::<(u8, u8)>::empty());
    assert(reactions_from(t, 1, 0) == Seq::<(u8, u8)>::empty());
    assert(reactions_from(t, 5, 5) == Seq::<(u8, u8)>::empty());
    assert(reactions_from(t, 5, 4) == Seq::<(u8, u8)>::empty());
    assert(reactions_from(t, 5, 3) == Seq::<(u8, u8)>::empty());
    assert(reactions_from(t, 5, 2) == Seq::<(u8, u8)>::empty());
    assert(reactions_from(t, 5, 1) == Seq::<(u8, u8)>::empty());
    assert(reactions_from(t, 5, 0) == Seq::<(u8, u8)>::empty());
    assert(reactions_from(t, 3, 5) == Seq::<(u8, u8)>::empty());
    assert(reactions_from(t, 3, 4) == Seq::<(u8, u8)>::empty());
    assert(reactions_from(t, 3, 3) == Seq::<(u8, u8)>::empty());
    assert(reactions_from(t, 3, 2) == Seq::<(u8, u8)>::empty());
    assert(reactions_from(t, 3, 1) == Seq::<(u8, u8)>::empty());
    assert(reactions_from(t, 3, 0) =~= seq![(4u8, 1u8)]);
    assert(reactions_from(t, 4, 5) == Seq::<(u8, u8)>::empty());
    assert(reactions_from(t, 4, 4) == Seq::<(u8, u8)>::empty());
    assert(reactions_from(t, 4, 3) == Seq::<(u8, u8)>::empty());
    assert(reactions_from(t, 4, 2) =~= seq![(2u8, 8u8)]);
    assert(reactions_from(t, 4, 1) =~= seq![(3u8, 5u8), (2u8, 8u8)]);
    assert(reactions_from(t, 4, 0) =~= seq![(3u8, 5u8), (2u8, 8u8)]);
}

/// Density of a built-in kind, in milli-units of relative weight.
pub open spec fn density_of(code: u8) -> i64 {
    if code == 1 {
        10
    } else if code == 2 {
        800
    } else if code == 3 {
        500
    } else if code == 4 {
        900
    } else if code == 5 {
        940
    } else if code == 6 {
        980
    } else if code == 7 {
        400
    } else if code == 8 {
        10
    } else if code == 9 {
        800
    } else {
        0
    }
}

/// Movement-resistance threshold of a built-in kind.
pub open spec fn min_force_of(code: u8) -> i64 {
    if code == 1 {
        0
    } else if code == 2 {
        400
    } else if code == 3 {
        0
    } else if code == 4 {
        200
    } else if code == 5 {
        600
    } else if code == 6 {
        1100
    } else if code == 7 {
        450
    } else if code == 8 {
        450
    } else if code == 9 {
        1100
    } else {
        0
    }
}

/// Gravity multiplier of a built-in kind (smoke rises).
pub open spec fn gravity_mult_of(code: u8) -> i64 {
    if code == 1 {
        10
    } else if code == 2 {
        1200
    } else if code == 3 {
        1000
    } else if code == 4 {
        1000
    } else if code == 5 {
        1000
    } else if code == 6 {
        1000
    } else if code == 7 {
        1200
    } else if code == 8 {
        -1500i64
    } else if code == 9 {
        1200
    } else {
        0
    }
}

/// Friction multiplier of a built-in kind.
pub open spec fn friction_mult_of(code: u8) -> i64 {
    if code == 1 {
        950
    } else if code == 2 {
        990
    } else if code == 3 {
        990
    } else if code == 4 {
        950
    } else if code == 5 {
        990
    } else if code == 6 {
        990
    } else if code == 7 {
        990
    } else if code == 8 {
        950
    } else if code == 9 {
        990
    } else {
        0
    }
}

/// The base display color of a built-in kind, before texture jitter.
pub open spec fn base_color_of(code: u8) -> Rgba {
    if code == 1 {
        Rgba { r: 1000, g: 1000, b: 1000, a: 1000 }
    } else if code == 2 {
        Rgba { r: 800, g: 800, b: 0, a: 1000 }
    } else if code == 3 {
        Rgba { r: 0, g: 0, b: 800, a: 1000 }
    } else if code == 4 {
        Rgba { r: 800, g: 0, b: 0, a: 1000 }
    } else if code == 5 {
        Rgba { r: 100, g: 100, b: 100, a: 1000 }
    } else if code == 6 {
        Rgba { r: 800, g: 400, b: 200, a: 1000 }
    } else if code == 7 {
        Rgba { r: 500, g: 300, b: 0, a: 1000 }
    } else if code == 8 {
        Rgba { r: 600, g: 600, b: 600, a: 1000 }
    } else if code == 9 {
        Rgba { r: 500, g: 500, b: 650, a: 1000 }
    } else {
        Rgba { r: 1000, g: 0, b: 1000, a: 1000 }
    }
}

/// A freshly created cell of `code` at `(x, y)`: resting, with the kind's
/// physical constants and base color.
pub open spec fn base_pixel_spec(code: u8, x: usize, y: usize) -> Pixel {
    Pixel {
        ptype: code,
        x,
        y,
        vx: 0,
        vy: 0,
        color: base_color_of(code),
        density: density_of(code),
        min_force: min_force_of(code),
        gravity_multiplier: gravity_mult_of(code),
        friction_multiplier: friction_mult_of(code),
    }
}

/// Every built-in kind's constants lie in the documented parameter ranges.
pub proof fn lemma_kind_params(code: u8, x: usize, y: usize)
    ensures
        params_ok(base_pixel_spec(code, x, y)),
        vel_ok(base_pixel_spec(code, x, y)),
        0 <= density_of(code) <= DENSITY_MAX,
        0 <= min_force_of(code) <= FORCE_MAX,
        -MULT_MAX <= gravity_mult_of(code) <= MULT_MAX,
        0 <= friction_mult_of(code) <= FRICTION_MAX,
{
}

/// A resting cell of `code` at `(x, y)` with the kind's base color (the
/// deterministic factory the reaction pass uses).
pub fn base_pixel(code: u8, x: usize, y: usize) -> (p: Pixel)
    ensures
        p == base_pixel_spec(code, x, y),
{
    let (density, min_force, gm, fm, color) = if code == 1 {
        (10, 0, 10, 950, Rgba { r: 1000, g: 1000, b: 1000, a: 1000 })
    } else if code == 2 {
        (800, 400, 1200, 990, Rgba { r: 800, g: 800, b: 0, a: 1000 })
    } else if code == 3 {
        (500, 0, 1000, 990, Rgba { r: 0, g: 0, b: 800, a: 1000 })
    } else if code == 4 {
        (900, 200, 1000, 950, Rgba { r: 800, g: 0, b: 0, a: 1000 })
    } else if code == 5 {
        (940, 600, 1000, 990, Rgba { r: 100, g: 100, b: 100, a: 1000 })
    } else if code == 6 {
        (980, 1100, 1000, 990, Rgba { r: 800, g: 400, b: 200, a: 1000 })
    } else if code == 7 {
        (400, 450, 1200, 990, Rgba { r: 500, g: 300, b: 0, a: 1000 })
    } else if code == 8 {
        (10, 450, -1500, 950, Rgba { r: 600, g: 600, b: 600, a: 1000 })
    } else if code == 9 {
        (800, 1100, 1200, 990, Rgba { r: 500, g: 500, b: 650, a: 1000 })
    } else {
        (0, 0, 0, 0, Rgba { r: 1000, g: 0, b: 1000, a: 1000 })
    };
    Pixel {
        ptype: code,
        x,
        y,
        vx: 0,
        vy: 0,
        color,
        density,
        min_force,
        gravity_multiplier: gm,
        friction_multiplier: fm,
    }
}

/// A channel drawn around `value` within `margin`, clamped to [0, 1000].
pub fn rand_color(value: u16, margin: u16, rng: &mut SimRng) -> (c: u16)
    requires
        value <= 1000,
        margin <= 1000,
    ensures
        c <= 1000,
        clamp_spec(value - margin, 0, 1000) <= c <= clamp_spec(value + margin, 0, 1000),
        margin == 0 ==> c == value,
{
    let lo = value as i64 - margin as i64;
    let hi = value as i64 + margin as i64;
    let d = rng.range_i64(lo, hi);
    clamp_i64_to_channel(d)
}

/// A grey color drawn around `value` within `margin`, opaque.
pub fn rand_color_grey(value: u16, margin: u16, rng: &mut SimRng) -> (c: Rgba)
    requires
        value <= 1000,
        margin <= 1000,
    ensures
        c.r == c.g && c.g == c.b,
        c.r <= 1000,
        c.a == 1000,
{
    let v = rand_color(value, margin, rng);
    Rgba { r: v, g: v, b: v, a: 1000 }
}

/// A color drawn around `base` within `margin` on each channel, opaque.
pub fn rand_color_margin(base: Rgba, margin: u16, rng: &mut SimRng) -> (c: Rgba)
    requires
        base.r <= 1000,
        base.g <= 1000,
        base.b <= 1000,
        margin <= 1000,
    ensures
        c.r <= 1000 && c.g <= 1000 && c.b <= 1000,
        c.a == 1000,
{
    let r = rand_color(base.r, margin, rng);
    let g = rand_color(base.g, margin, rng);
    let b = rand_color(base.b, margin, rng);
    Rgba { r, g, b, a: 1000 }
}

fn clamp_i64_to_channel(d: i64) -> (c: u16)
    requires
        -1_000_000 <= d <= 1_000_000,
    ensures
        c as int == clamp_spec(d as int, 0, 1000),
{
    if d < 0 {
        0
    } else if d > 1000 {
        1000
    } else {
        d as u16
    }
}

/// A cell of kind `code` with textured color: the kind's constants, the
/// kind's color jittered for visual grain.
pub fn spawn_code(code: u8, x: usize, y: usize, rng: &mut SimRng) -> (p: Pixel)
    ensures
        p == (Pixel { color: p.color, ..base_pixel_spec(code, x, y) }),
        p.color.r <= 1000 && p.color.g <= 1000 && p.color.b <= 1000 && p.color.a == 1000,
{
    let base = base_pixel(code, x, y);
    let color = if code == 1 {
        rand_color_grey(1000, 50, rng)
    } else if code == 2 {
        let r = rand_color(800, 150, rng);
        let g = rand_color(800, 100, rng);
        Rgba { r, g, b: 0, a: 1000 }
    } else if code == 3 {
        let b = rand_color(800, 150, rng);
        Rgba { r: 0, g: 0, b, a: 1000 }
    } else if code == 4 {
        let r = rand_color(800, 150, rng);
        Rgba { r, g: 0, b: 0, a: 1000 }
    } else if code == 5 {
        rand_color_grey(100, 250, rng)
    } else if code == 6 {
        let r = rand_color(800, 150, rng);
        let g = rand_color(400, 100, rng);
        let b = rand_color(200, 100, rng);
        Rgba { r, g, b, a: 1000 }
    } else if code == 7 {
        let r = rand_color(500, 150, rng);
        let g = rand_color(300, 50, rng);
        Rgba { r, g, b: 0, a: 1000 }
    } else if code == 8 {
        rand_color_grey(600, 100, rng)
    } else if code == 9 {
        let r = rand_color(500, 30, rng);
        let g = rand_color(500, 30, rng);
        let b = rand_color(650, 100, rng);
        Rgba { r, g, b, a: 1000 }
    } else {
        Rgba { r: 1000, g: 0, b: 1000, a: 1000 }
    };
    Pixel { color, ..base }
}

/// The code a spawn name stands for: the built-in kinds by name, anything
/// else the sentinel 0.
pub open spec fn name_code_spec(s: Seq<char>) -> u8 {
    if s == "air"@ {
        1
    } else if s == "sand"@ {
        2
    } else if s == "water"@ {
        3
    } else if s == "lava"@ {
        4
    } else if s == "stone"@ {
        5
    } else if s == "brick"@ {
        6
    } else if s == "wood"@ {
        7
    } else if s == "smoke"@ {
        8
    } else if s == "glass"@ {
        9
    } else {
        0
    }
}

/// The code a spawn name stands for.
pub fn name_code(typ: &String) -> (code: u8)
    ensures
        code == name_code_spec(typ@),
{
    if *typ == "air".to_owned() {
        1
    } else if *typ == "sand".to_owned() {
        2
    } else if *typ == "water".to_owned() {
        3
    } else if *typ == "lava".to_owned() {
        4
    } else if *typ == "stone".to_owned() {
        5
    } else if *typ == "brick".to_owned() {
        6
    } else if *typ == "wood".to_owned() {
        7
    } else if *typ == "smoke".to_owned() {
        8
    } else if *typ == "glass".to_owned() {
        9
    } else {
        0
    }
}

pub fn glass(x: usize, y: usize, rng: &mut SimRng) -> (p: Pixel)
    ensures
        p == (Pixel { color: p.color, ..base_pixel_spec(9, x, y) }),
{
    spawn_code(9, x, y, rng)
}

pub fn smoke(x: usize, y: usize, rng: &mut SimRng) -> (p: Pixel)
    ensures
        p == (Pixel { color: p.color, ..base_pixel_spec(8, x, y) }),
{
    spawn_code(8, x, y, rng)
}

pub fn wood(x: usize, y: usize, rng: &mut SimRng) -> (p: Pixel)
    ensures
        p == (Pixel { color: p.color, ..base_pixel_spec(7, x, y) }),
{
    spawn_code(7, x, y, rng)
}

pub fn air(x: usize, y: usize, rng: &mut SimRng) -> (p: Pixel)
    ensures
        p == (Pixel { color: p.color, ..base_pixel_spec(1, x, y) }),
{
    spawn_code(1, x, y, rng)
}

pub fn sand(x: usize, y: usize, rng: &mut SimRng) -> (p: Pixel)
    ensures
        p == (Pixel { color: p.color, ..base_pixel_spec(2, x, y) }),
{
    spawn_code(2, x, y, rng)
}

pub fn water(x: usize, y: usize, rng: &mut SimRng) -> (p: Pixel)
    ensures
        p == (Pixel { color: p.color, ..base_pixel_spec(3, x, y) }),
{
    spawn_code(3, x, y, rng)
}

pub fn lava(x: usize, y: usize, rng: &mut SimRng) -> (p: Pixel)
    ensures
        p == (Pixel { color: p.color, ..base_pixel_spec(4, x, y) }),
{
    spawn_code(4, x, y, rng)
}

pub fn stone(x: usize, y: usize, rng: &mut SimRng) -> (p: Pixel)
    ensures
        p == (Pixel { color: p.color, ..base_pixel_spec(5, x, y) }),
{
    spawn_code(5, x, y, rng)
}

pub fn brick(x: usize, y: usize, rng: &mut SimRng) -> (p: Pixel)
    ensures
        p == (Pixel { color: p.color, ..base_pixel_spec(6, x, y) }),
{
    spawn_code(6, x, y, rng)
}

impl Pixel {
    /// A cell spawned by material name (the built-in kinds; an unknown
    /// name yields the sentinel kind), resting at `(x, y)` with textured
    /// color.
    pub fn spawn(typ: &String, x: usize, y: usize, rng: &mut SimRng) -> (p: Pixel)
        ensures
            p == (Pixel { color: p.color, ..base_pixel_spec(name_code_spec(typ@), x, y) }),
            p.color.r <= 1000 && p.color.g <= 1000 && p.color.b <= 1000 && p.color.a == 1000,
    {
        let code = name_code(typ);
        spawn_code(code, x, y, rng)
    }
}

} // verus!
