//! The player's health bar: a row of hearts, each holding 0, 1 or 2 half
//! hearts of health, and the running health total.
use vstd::prelude::*;

verus! {

/// One heart of the health bar: its health in half hearts (2 full, 1 half,
/// 0 empty).
pub struct HeartDisplay {
    pub health: i32,
}

impl HeartDisplay {
    /// A full heart.
    pub fn new() -> (h: HeartDisplay)
        ensures
            h.health == 2,
    {
        HeartDisplay { health: 2 }
    }

    pub fn get_health(&self) -> (h: i32)
        ensures
            h == self.health,
    {
        self.health
    }

    pub fn set_health(&mut self, health: i32)
        ensures
            final(self).health == health,
    {
        self.health = health;
    }
}

/// The texture a heart shows.
#[derive(Clone, Copy, Debug, PartialEq, Eq, Structural)]
pub enum HeartTexture {
    Full,
    Half,
    Empty,
}

/// The texture for a heart's health; other values leave the texture as it
/// was.
pub open spec fn texture_for(health: i32) -> Option<HeartTexture> {
    if health == 2 {
        Some(HeartTexture::Full)
    } else if health == 1 {
        Some(HeartTexture::Half)
    } else if health == 0 {
        Some(HeartTexture::Empty)
    } else {
        None
    }
}

/// The health bar: the hearts' health values in display order, the running
/// health total, and whether the bar is shown.
pub struct Heart {
    pub hearts: Vec<i32>,
    pub current_health: i32,
    pub visible: bool,
}

pub open spec fn min(a: int, b: int) -> int {
    if a <= b { a } else { b }
}

/// The hearts as mathematical integers.
pub open spec fn ints(s: Seq<i32>) -> Seq<int> {
    s.map_values(|h: i32| h as int)
}

/// What one heart with health `h` takes of `rem` points of damage (a full
/// heart up to 2, a half heart up to 1, others nothing).
pub open spec fn damage_taken(h: int, rem: int) -> int {
    if h == 2 { min(rem, 2) } else if h == 1 { min(rem, 1) } else { 0 }
}

/// What one heart with health `h` takes of `rem` points of healing (an
/// empty heart up to 2, a half heart up to 1, others nothing).
pub open spec fn heal_taken(h: int, rem: int) -> int {
    if h == 0 { min(rem, 2) } else if h == 1 { min(rem, 1) } else { 0 }
}

/// `rem` points of damage dealt to hearts `i - 1` down to `0`: each heart
/// takes what it can, and dealing stops once nothing is left.
pub open spec fn damage_from(h: Seq<int>, i: int, rem: int) -> Seq<int>
    decreases i,
{
    if i <= 0 || i > h.len() {
        h
    } else {
        let take = damage_taken(h[i - 1], rem);
        let h2 = h.update(i - 1, h[i - 1] - take);
        if rem - take <= 0 {
            h2
        } else {
            damage_from(h2, i - 1, rem - take)
        }
    }
}

/// `rem` points of healing given to hearts `i` up to the last: each heart
/// takes what it can, and healing stops once nothing is left.
pub open spec fn heal_from(h: Seq<int>, i: int, rem: int) -> Seq<int>
    decreases h.len() - i,
{
    if i < 0 || i >= h.len() {
        h
    } else {
        let take = heal_taken(h[i], rem);
        let h2 = h.update(i, h[i] + take);
        if rem - take <= 0 {
            h2
        } else {
            heal_from(h2, i + 1, rem - take)
        }
    }
}

/// The hearts after `damage(d)`: dealt from the last heart backwards.
pub open spec fn damaged(h: Seq<int>, d: int) -> Seq<int> {
    damage_from(h, h.len() as int, d)
}

/// The hearts after `heal(x)`: given from the first heart onwards.
pub open spec fn healed(h: Seq<int>, x: int) -> Seq<int> {
    heal_from(h, 0, x)
}

/// Every value fits an `i32`.
pub open spec fn fits_i32(s: Seq<int>) -> bool {
    forall|i: int| 0 <= i < s.len() ==> i32::MIN <= #[trigger] s[i] <= i32::MAX
}

/// Damage `d` leaves every heart's health within `i32`: only a negative
/// damage can overflow, and then only on the last heart when it holds 1 or
/// 2.
pub open spec fn damage_fits(hearts: Seq<i32>, d: int) -> bool {
    d >= 0 || hearts.len() == 0 || !(hearts.last() == 1 || hearts.last() == 2) || hearts.last() - d <= i32::MAX
}

proof fn lemma_damage_nonneg_fits(h: Seq<int>, i: int, rem: int)
    requires
        fits_i32(h),
        rem >= 0,
    ensures
        fits_i32(damage_from(h, i, rem)),
    decreases i,
{
    if i <= 0 || i > h.len() {
    } else {
        let take = damage_taken(h[i - 1], rem);
        let h2 = h.update(i - 1, h[i - 1] - take);
        assert(fits_i32(h2));
        if rem - take > 0 {
            lemma_damage_nonneg_fits(h2, i - 1, rem - take);
        }
    }
}

/// `damage_fits` is exactly what keeps the hearts within `i32`.
proof fn lemma_damage_fits(hearts: Seq<i32>, d: int)
    requires
        i32::MIN <= d <= i32::MAX,
        damage_fits(hearts, d),
    ensures
        fits_i32(damaged(ints(hearts), d)),
{
    let h = ints(hearts);
    assert(fits_i32(h));
    if d >= 0 {
        lemma_damage_nonneg_fits(h, h.len() as int, d);
    } else if h.len() > 0 {
        let n = h.len() as int;
        assert(h[n - 1] == hearts.last());
    }
}

proof fn lemma_heal_from_fits(h: Seq<int>, i: int, rem: int)
    requires
        fits_i32(h),
        i32::MIN <= rem <= i32::MAX,
    ensures
        fits_i32(heal_from(h, i, rem)),
    decreases h.len() - i,
{
    if i < 0 || i >= h.len() {
    } else {
        let take = heal_taken(h[i], rem);
        let h2 = h.update(i, h[i] + take);
        assert(fits_i32(h2));
        if rem - take > 0 {
            lemma_heal_from_fits(h2, i + 1, rem - take);
        }
    }
}

/// Healing never takes a heart's health out of `i32`.
proof fn lemma_heal_fits(hearts: Seq<i32>, x: int)
    requires
        i32::MIN <= x <= i32::MAX,
    ensures
        fits_i32(healed(ints(hearts), x)),
{
    lemma_heal_from_fits(ints(hearts), 0, x);
}

proof fn lemma_damage_from_len(h: Seq<int>, i: int, rem: int)
    ensures
        damage_from(h, i, rem).len() == h.len(),
        forall|j: int| i <= j < h.len() ==> #[trigger] damage_from(h, i, rem)[j] == h[j],
    decreases i,
{
    if i <= 0 || i > h.len() {
    } else {
        let take = damage_taken(h[i - 1], rem);
        let h2 = h.update(i - 1, h[i - 1] - take);
        if rem - take > 0 {
            lemma_damage_from_len(h2, i - 1, rem - take);
        }
    }
}

proof fn lemma_heal_from_len(h: Seq<int>, i: int, rem: int)
    ensures
        heal_from(h, i, rem).len() == h.len(),
        forall|j: int| 0 <= j < i && j < h.len() ==> #[trigger] heal_from(h, i, rem)[j] == h[j],
    decreases h.len() - i,
{
    if i < 0 || i >= h.len() {
    } else {
        let take = heal_taken(h[i], rem);
        let h2 = h.update(i, h[i] + take);
        if rem - take > 0 {
            lemma_heal_from_len(h2, i + 1, rem - take);
        }
    }
}

impl Heart {
    /// An empty, shown health bar with no health.
    pub fn new() -> (h: Heart)
        ensures
            h.hearts@ == Seq::<i32>::empty(),
            h.current_health == 0,
            h.visible,
    {
        Heart { hearts: Vec::new(), current_health: 0, visible: true }
    }

    /// Takes the hearts of the bar, in display order (`ready`).
    pub fn ready(&mut self, hearts: Vec<i32>)
        ensures
            final(self).hearts@ == hearts@,
            final(self).current_health == old(self).current_health,
            final(self).visible == old(self).visible,
    {
        self.hearts = hearts;
    }

    /// Adds `delta` to the health total, hides the bar once the total is
    /// not positive, and returns the texture each heart shows now.
    pub fn update_health(&mut self, delta: i32) -> (textures: Vec<Option<HeartTexture>>)
        requires
            i32::MIN <= old(self).current_health + delta <= i32::MAX,
        ensures
            final(self).current_health == old(self).current_health + delta,
            final(self).visible == (old(self).visible && final(self).current_health > 0),
            final(self).hearts@ == old(self).hearts@,
            textures@.len() == final(self).hearts@.len(),
            forall|i: int| 0 <= i < textures@.len() ==> #[trigger] textures@[i] == texture_for(final(self).hearts@[i]),
    {
        if delta >= 1 {
            self.current_health = self.current_health + delta;
        }
        if delta <= -1 {
            self.current_health = self.current_health + delta;
        }
        if self.current_health <= 0 {
            self.visible = false;
        }
        let mut textures: Vec<Option<HeartTexture>> = Vec::new();
        let mut i: usize = 0;
        while i < self.hearts.len()
            invariant
                i <= self.hearts@.len(),
                textures@.len() == i,
                forall|j: int| 0 <= j < i ==> #[trigger] textures@[j] == texture_for(self.hearts@[j]),
            decreases self.hearts@.len() - i,
        {
            let h = self.hearts[i];
            let t = if h == 2 {
                Some(HeartTexture::Full)
            } else if h == 1 {
                Some(HeartTexture::Half)
            } else if h == 0 {
                Some(HeartTexture::Empty)
            } else {
                None
            };
            textures.push(t);
            i = i + 1;
        }
        textures
    }

    /// Deals `damage` to the hearts from the last one backwards (see
    /// `damaged`), then takes it off the health total (see `update_health`).
    pub fn damage(&mut self, damage: i32) -> (textures: Vec<Option<HeartTexture>>)
        requires
            damage > i32::MIN,
            i32::MIN <= old(self).current_health - damage <= i32::MAX,
            damage_fits(old(self).hearts@, damage as int),
        ensures
            ints(final(self).hearts@) == damaged(ints(old(self).hearts@), damage as int),
            final(self).hearts@.len() == old(self).hearts@.len(),
            final(self).current_health == old(self).current_health - damage,
            final(self).visible == (old(self).visible && final(self).current_health > 0),
            textures@.len() == final(self).hearts@.len(),
            forall|i: int| 0 <= i < textures@.len() ==> #[trigger] textures@[i] == texture_for(final(self).hearts@[i]),
    {
        let ghost target = damaged(ints(old(self).hearts@), damage as int);
        proof {
            lemma_damage_fits(old(self).hearts@, damage as int);
            lemma_damage_from_len(ints(old(self).hearts@), old(self).hearts@.len() as int, damage as int);
        }
        let mut remaining: i32 = damage;
        let mut i: usize = self.hearts.len();
        while i > 0
            invariant_except_break
                damage_from(ints(self.hearts@), i as int, remaining as int) == target,
            invariant
                i <= self.hearts@.len(),
                self.hearts@.len() == old(self).hearts@.len(),
                fits_i32(target),
                target.len() == self.hearts@.len(),
                self.current_health == old(self).current_health,
                self.visible == old(self).visible,
            ensures
                ints(self.hearts@) == target,
            decreases i,
        {
            let ghost hs = ints(self.hearts@);
            let h = self.hearts[i - 1];
            let ghost take_s = damage_taken(h as int, remaining as int);
            let ghost h2 = hs.update(i - 1, hs[i - 1] - take_s);
            proof {
                assert(hs[i - 1] == h);
                assert(target == if remaining - take_s <= 0 { h2 } else { damage_from(h2, i - 1, remaining - take_s) });
                if remaining - take_s > 0 {
                    lemma_damage_from_len(h2, i - 1, remaining - take_s);
                }
                assert(target[i - 1] == h2[i - 1]);
            }
            let mut take: i32 = 0;
            if h == 2 {
                take = if remaining <= 2 { remaining } else { 2 };
            } else if h == 1 {
                take = if remaining <= 1 { remaining } else { 1 };
            }
            assert(take == take_s);
            if h == 2 || h == 1 {
                self.hearts.set(i - 1, h - take);
            }
            remaining = remaining - take;
            i = i - 1;
            proof {
                assert(ints(self.hearts@) =~= h2);
            }
            if remaining <= 0 {
                break;
            }
        }
        self.update_health(-damage)
    }

    /// Gives `heal` points of healing to the hearts from the first one
    /// onwards (see `healed`), then adds it to the health total (see
    /// `update_health`).
    pub fn heal(&mut self, heal: i32) -> (textures: Vec<Option<HeartTexture>>)
        requires
            i32::MIN <= old(self).current_health + heal <= i32::MAX,
        ensures
            ints(final(self).hearts@) == healed(ints(old(self).hearts@), heal as int),
            final(self).hearts@.len() == old(self).hearts@.len(),
            final(self).current_health == old(self).current_health + heal,
            final(self).visible == (old(self).visible && final(self).current_health > 0),
            textures@.len() == final(self).hearts@.len(),
            forall|i: int| 0 <= i < textures@.len() ==> #[trigger] textures@[i] == texture_for(final(self).hearts@[i]),
    {
        let ghost target = healed(ints(old(self).hearts@), heal as int);
        proof {
            lemma_heal_fits(old(self).hearts@, heal as int);
            lemma_heal_from_len(ints(old(self).hearts@), 0, heal as int);
        }
        let mut remaining: i32 = heal;
        let mut i: usize = 0;
        while i < self.hearts.len()
            invariant_except_break
                heal_from(ints(self.hearts@), i as int, remaining as int) == target,
            invariant
                i <= self.hearts@.len(),
                self.hearts@.len() == old(self).hearts@.len(),
                fits_i32(target),
                target.len() == self.hearts@.len(),
                self.current_health == old(self).current_health,
                self.visible == old(self).visible,
            ensures
                ints(self.hearts@) == target,
            decreases self.hearts@.len() - i,
        {
            let ghost hs = ints(self.hearts@);
            let h = self.hearts[i];
            let ghost take_s = heal_taken(h as int, remaining as int);
            let ghost h2 = hs.update(i as int, hs[i as int] + take_s);
            proof {
                assert(hs[i as int] == h);
                assert(target == if remaining - take_s <= 0 { h2 } else { heal_from(h2, i + 1, remaining - take_s) });
                if remaining - take_s > 0 {
                    lemma_heal_from_len(h2, i + 1, remaining - take_s);
                }
                assert(target[i as int] == h2[i as int]);
            }
            let mut take: i32 = 0;
            if h == 0 {
                take = if remaining <= 2 { remaining } else { 2 };
            } else if h == 1 {
                take = if remaining <= 1 { remaining } else { 1 };
            }
            assert(take == take_s);
            if h == 0 || h == 1 {
                self.hearts.set(i, h + take);
            }
            remaining = remaining - take;
            i = i + 1;
            proof {
                assert(ints(self.hearts@) =~= h2);
            }
            if remaining <= 0 {
                break;
            }
        }
        self.update_health(heal)
    }
}

/// Total health held by some hearts.
pub open spec fn sum(s: Seq<int>) -> int
    decreases s.len(),
{
    if s.len() == 0 { 0 } else { sum(s.drop_last()) + s.last() }
}

/// Every heart holds 0, 1 or 2.
pub open spec fn hearts_in_range(s: Seq<int>) -> bool {
    forall|i: int| 0 <= i < s.len() ==> 0 <= #[trigger] s[i] <= 2
}

/// Full hearts first, then at most one half (or full) heart, then empty
/// ones: every heart before a non-empty heart is full.
pub open spec fn packed(s: Seq<int>) -> bool {
    &&& hearts_in_range(s)
    &&& forall|i: int, j: int| 0 <= i < j < s.len() && #[trigger] s[j] > 0 ==> #[trigger] s[i] == 2
}

/// The packed row of `n` hearts holding `total` half hearts.
pub open spec fn packed_of(n: nat, total: int) -> Seq<int> {
    Seq::new(n, |i: int| if 2 * i + 2 <= total { 2 } else if 2 * i + 1 == total { 1 } else { 0 })
}

proof fn lemma_sum_update(s: Seq<int>, j: int, v: int)
    requires
        0 <= j < s.len(),
    ensures
        sum(s.update(j, v)) == sum(s) - s[j] + v,
    decreases s.len(),
{
    if j < s.len() - 1 {
        assert(s.update(j, v).drop_last() =~= s.drop_last().update(j, v));
        lemma_sum_update(s.drop_last(), j, v);
    } else {
        assert(s.update(j, v).drop_last() =~= s.drop_last());
    }
}

proof fn lemma_sum_bounds(s: Seq<int>)
    requires
        hearts_in_range(s),
    ensures
        0 <= sum(s) <= 2 * s.len(),
    decreases s.len(),
{
    if s.len() > 0 {
        lemma_sum_bounds(s.drop_last());
    }
}

proof fn lemma_sum_zero(s: Seq<int>)
    requires
        forall|i: int| 0 <= i < s.len() ==> #[trigger] s[i] == 0,
    ensures
        sum(s) == 0,
    decreases s.len(),
{
    if s.len() > 0 {
        lemma_sum_zero(s.drop_last());
    }
}

proof fn lemma_sum_full(s: Seq<int>)
    requires
        forall|i: int| 0 <= i < s.len() ==> #[trigger] s[i] == 2,
    ensures
        sum(s) == 2 * s.len(),
    decreases s.len(),
{
    if s.len() > 0 {
        lemma_sum_full(s.drop_last());
    }
}

/// A packed row is fixed by its length and its total.
proof fn lemma_packed_is_packed_of(s: Seq<int>)
    requires
        packed(s),
    ensures
        s == packed_of(s.len(), sum(s)),
    decreases s.len(),
{
    if s.len() > 0 {
        let t = s.drop_last();
        assert(packed(t)) by {
            assert forall|i: int, j: int| 0 <= i < j < t.len() && #[trigger] t[j] > 0 implies #[trigger] t[i] == 2 by {
                assert(s[j] > 0);
            }
        }
        lemma_packed_is_packed_of(t);
        lemma_sum_bounds(t);
        let n = s.len() as int;
        if s.last() > 0 {
            assert forall|i: int| 0 <= i < t.len() implies #[trigger] t[i] == 2 by {
                assert(s[n - 1] > 0);
                assert(s[i] == 2);
            }
            lemma_sum_full(t);
        }
        let p = packed_of(s.len(), sum(s));
        assert(sum(s) == sum(t) + s[n - 1]);
        assert forall|i: int| 0 <= i < n implies #[trigger] s[i] == p[i] by {
            if i < n - 1 {
                assert(s[i] == t[i]);
                assert(t[i] == packed_of(t.len(), sum(t))[i]);
            }
        }
        assert(s =~= p);
    } else {
        assert(s =~= packed_of(0, 0));
    }
}

proof fn lemma_damage_packed(h: Seq<int>, i: int, rem: int)
    requires
        packed(h),
        0 <= i <= h.len(),
        forall|j: int| i <= j < h.len() ==> #[trigger] h[j] == 0,
        rem >= 0,
    ensures
        damage_from(h, i, rem) == packed_of(h.len(), sum(h) - min(rem, sum(h))),
    decreases i,
{
    lemma_sum_bounds(h);
    if i == 0 {
        lemma_sum_zero(h);
        lemma_packed_is_packed_of(h);
    } else {
        let x = h[i - 1];
        let take = damage_taken(x, rem);
        let h2 = h.update(i - 1, x - take);
        lemma_sum_update(h, i - 1, x - take);
        assert(packed(h2)) by {
            assert forall|a: int, b: int| 0 <= a < b < h2.len() && #[trigger] h2[b] > 0 implies #[trigger] h2[a] == 2 by {
                assert(h[b] > 0);
                if a == i - 1 {
                    assert(b >= i);
                }
            }
        }
        if x == 0 {
            assert(h2 =~= h);
            if rem > 0 {
                lemma_damage_packed(h, i - 1, rem);
            } else {
                lemma_packed_is_packed_of(h);
            }
        } else if rem <= x {
            lemma_packed_is_packed_of(h2);
            assert(sum(h) >= x) by {
                assert forall|j: int| 0 <= j < i - 1 implies #[trigger] h[j] == 2 by {
                    assert(h[i - 1] > 0);
                }
                lemma_sum_prefix_full(h, i - 1);
            }
        } else {
            assert(h2[i - 1] == 0);
            lemma_damage_packed(h2, i - 1, rem - take);
        }
    }
}

/// When the first `k` hearts are full, the row holds at least `2 * k` plus
/// heart `k`.
proof fn lemma_sum_prefix_full(h: Seq<int>, k: int)
    requires
        hearts_in_range(h),
        0 <= k < h.len(),
        forall|j: int| 0 <= j < k ==> #[trigger] h[j] == 2,
    ensures
        sum(h) >= 2 * k + h[k],
    decreases h.len(),
{
    if k < h.len() - 1 {
        let t = h.drop_last();
        lemma_sum_prefix_full(t, k);
    } else {
        let t = h.drop_last();
        lemma_sum_full(t);
    }
}

proof fn lemma_heal_packed(h: Seq<int>, i: int, rem: int)
    requires
        packed(h),
        0 <= i <= h.len(),
        forall|j: int| 0 <= j < i ==> #[trigger] h[j] == 2,
        rem >= 0,
    ensures
        heal_from(h, i, rem) == packed_of(h.len(), sum(h) + min(rem, 2 * h.len() - sum(h))),
    decreases h.len() - i,
{
    lemma_sum_bounds(h);
    if i >= h.len() {
        lemma_sum_full(h);
        lemma_packed_is_packed_of(h);
    } else {
        let x = h[i];
        let take = heal_taken(x, rem);
        let h2 = h.update(i, x + take);
        lemma_sum_update(h, i, x + take);
        if x == 2 {
            assert(h2 =~= h);
            if rem > 0 {
                lemma_heal_packed(h, i + 1, rem);
            } else {
                lemma_packed_is_packed_of(h);
            }
        } else {
            assert forall|j: int| i < j < h.len() implies #[trigger] h[j] == 0 by {
                if h[j] > 0 {
                    assert(h[i] == 2);
                }
            }
            assert(packed(h2)) by {
                assert forall|a: int, b: int| 0 <= a < b < h2.len() && #[trigger] h2[b] > 0 implies #[trigger] h2[a] == 2 by {
                    if b != i {
                        assert(h[b] > 0);
                    }
                }
            }
            let n = h.len() as int;
            assert(2 * n - sum(h) >= 2 - x) by {
                let z = h.update(i, 2);
                lemma_sum_update(h, i, 2);
                assert(hearts_in_range(z));
                lemma_sum_bounds(z);
            }
            if rem <= 2 - x {
                lemma_packed_is_packed_of(h2);
            } else {
                lemma_heal_packed(h2, i + 1, rem - take);
            }
        }
    }
}

/// Damage dealt to a packed row leaves it packed, with the damage (as far
/// as the row holds health) taken off its total.
pub proof fn law_damage_keeps_packed(hearts: Seq<int>, d: int)
    requires
        packed(hearts),
        d >= 0,
    ensures
        packed(damaged(hearts, d)),
        sum(damaged(hearts, d)) == sum(hearts) - min(d, sum(hearts)),
        damaged(hearts, d) == packed_of(hearts.len(), sum(hearts) - min(d, sum(hearts))),
{
    lemma_sum_bounds(hearts);
    lemma_damage_packed(hearts, hearts.len() as int, d);
    lemma_packed_of_props(hearts.len(), sum(hearts) - min(d, sum(hearts)));
}

/// Healing given to a packed row leaves it packed, with the healing (as far
/// as the row has room) added to its total.
pub proof fn law_heal_keeps_packed(hearts: Seq<int>, x: int)
    requires
        packed(hearts),
        x >= 0,
    ensures
        packed(healed(hearts, x)),
        sum(healed(hearts, x)) == sum(hearts) + min(x, 2 * hearts.len() - sum(hearts)),
        healed(hearts, x) == packed_of(hearts.len(), sum(hearts) + min(x, 2 * hearts.len() - sum(hearts))),
{
    lemma_sum_bounds(hearts);
    lemma_heal_packed(hearts, 0, x);
    lemma_packed_of_props(hearts.len(), sum(hearts) + min(x, 2 * hearts.len() - sum(hearts)));
}

proof fn lemma_packed_of_props(n: nat, total: int)
    requires
        0 <= total <= 2 * n,
    ensures
        packed(packed_of(n, total)),
        sum(packed_of(n, total)) == total,
    decreases n,
{
    let s = packed_of(n, total);
    if n > 0 {
        let t = s.drop_last();
        let m = (n - 1) as nat;
        if total <= 2 * m {
            lemma_packed_of_props(m, total);
            assert(t =~= packed_of(m, total));
        } else {
            assert(t =~= packed_of(m, 2 * m as int));
            lemma_packed_of_props(m, 2 * m as int);
        }
    }
}

/// On a packed row, damage is undone by as much healing: `heal(d)` after
/// `damage(d)` gives the hearts back, where the row held at least `d`.
pub proof fn law_heal_undoes_damage(hearts: Seq<int>, d: int)
    requires
        packed(hearts),
        0 <= d <= sum(hearts),
    ensures
        healed(damaged(hearts, d), d) == hearts,
{
    lemma_sum_bounds(hearts);
    law_damage_keeps_packed(hearts, d);
    let after = damaged(hearts, d);
    law_heal_keeps_packed(after, d);
    lemma_packed_is_packed_of(hearts);
}

/// On a packed row, healing is undone by as much damage: `damage(x)` after
/// `heal(x)` gives the hearts back, where the row had room for `x`.
pub proof fn law_damage_undoes_heal(hearts: Seq<int>, x: int)
    requires
        packed(hearts),
        0 <= x <= 2 * hearts.len() - sum(hearts),
    ensures
        damaged(healed(hearts, x), x) == hearts,
{
    lemma_sum_bounds(hearts);
    law_heal_keeps_packed(hearts, x);
    let after = healed(hearts, x);
    law_damage_keeps_packed(after, x);
    lemma_packed_is_packed_of(hearts);
}

proof fn lemma_sum_split(h: Seq<int>, k: int)
    requires
        0 <= k <= h.len(),
    ensures
        sum(h) == sum(h.take(k)) + sum(h.skip(k)),
    decreases h.len(),
{
    if k == h.len() {
        assert(h.take(k) =~= h);
        assert(h.skip(k) =~= Seq::<int>::empty());
    } else {
        let t = h.drop_last();
        lemma_sum_split(t, k);
        assert(t.take(k) =~= h.take(k));
        assert(h.skip(k).drop_last() =~= t.skip(k));
        assert(h.skip(k).last() == h.last());
    }
}

proof fn lemma_take_step(h: Seq<int>, i: int)
    requires
        0 < i <= h.len(),
    ensures
        sum(h.take(i)) == sum(h.take(i - 1)) + h[i - 1],
{
    assert(h.take(i).drop_last() =~= h.take(i - 1));
}

proof fn lemma_damage_sum(h: Seq<int>, i: int, rem: int)
    requires
        hearts_in_range(h),
        0 <= i <= h.len(),
        rem >= 0,
    ensures
        hearts_in_range(damage_from(h, i, rem)),
        sum(damage_from(h, i, rem)) == sum(h) - min(rem, sum(h.take(i))),
    decreases i,
{
    if i == 0 {
        assert(h.take(0) =~= Seq::<int>::empty());
    } else {
        let x = h[i - 1];
        let take = damage_taken(x, rem);
        let h2 = h.update(i - 1, x - take);
        lemma_sum_update(h, i - 1, x - take);
        lemma_take_step(h, i);
        assert(h2.take(i - 1) =~= h.take(i - 1));
        lemma_sum_bounds(h.take(i - 1));
        if rem - take > 0 {
            lemma_damage_sum(h2, i - 1, rem - take);
        }
    }
}

proof fn lemma_heal_sum(h: Seq<int>, i: int, rem: int)
    requires
        hearts_in_range(h),
        0 <= i <= h.len(),
        rem >= 0,
    ensures
        hearts_in_range(heal_from(h, i, rem)),
        sum(heal_from(h, i, rem)) == sum(h) + min(rem, 2 * (h.len() - i) - sum(h.skip(i))),
    decreases h.len() - i,
{
    if i >= h.len() {
        assert(h.skip(i) =~= Seq::<int>::empty());
    } else {
        let x = h[i];
        let take = heal_taken(x, rem);
        let h2 = h.update(i, x + take);
        lemma_sum_update(h, i, x + take);
        lemma_sum_split(h, i);
        lemma_sum_split(h, i + 1);
        lemma_take_step(h, i + 1);
        assert(h2.skip(i + 1) =~= h.skip(i + 1));
        assert(hearts_in_range(h.skip(i + 1)));
        lemma_sum_bounds(h.skip(i + 1));
        if rem - take > 0 {
            lemma_heal_sum(h2, i + 1, rem - take);
        }
    }
}

/// Damage takes health off the hearts, from the last one backwards, until
/// it is spent or the hearts are empty: the hearts lose exactly the
/// smaller of the damage and their total, and each still holds 0 to 2.
pub proof fn law_damage_total(hearts: Seq<int>, d: int)
    requires
        hearts_in_range(hearts),
        d >= 0,
    ensures
        hearts_in_range(damaged(hearts, d)),
        sum(damaged(hearts, d)) == sum(hearts) - min(d, sum(hearts)),
{
    lemma_damage_sum(hearts, hearts.len() as int, d);
    assert(hearts.take(hearts.len() as int) =~= hearts);
}

/// Healing fills the hearts, from the first one onwards, until it is spent
/// or the hearts are full: the hearts gain exactly the smaller of the
/// healing and the room they had, and each still holds 0 to 2.
pub proof fn law_heal_total(hearts: Seq<int>, x: int)
    requires
        hearts_in_range(hearts),
        x >= 0,
    ensures
        hearts_in_range(healed(hearts, x)),
        sum(healed(hearts, x)) == sum(hearts) + min(x, 2 * hearts.len() - sum(hearts)),
{
    lemma_heal_sum(hearts, 0, x);
    assert(hearts.skip(0) =~= hearts);
}

} // verus!
