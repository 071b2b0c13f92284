use vstd::prelude::*;

verus! {

/// The most colors the list keeps.
pub const MAX_RECENT: usize = 32;

/// Recent colors for the color edit control, most recent first. Each color is held as the
/// bit patterns of its four channels (red, green, blue, alpha, from the high bits down).
#[derive(Debug, Clone)]
pub struct RecentColors(pub Vec<u128>);

/// The channel `a` is not a number: all exponent bits set and a nonzero fraction.
pub open spec fn is_nan_bits(a: u32) -> bool {
    (a & 0x7f80_0000u32) == 0x7f80_0000u32 && (a & 0x007f_ffffu32) != 0
}

/// Two channels are equal as `f32` values: neither is not-a-number, and their bits agree or
/// both are zeros (of either sign).
pub open spec fn channel_eq(a: u32, b: u32) -> bool {
    !is_nan_bits(a) && !is_nan_bits(b) && (a == b || ((a & 0x7fff_ffffu32) == 0 && (b
        & 0x7fff_ffffu32) == 0))
}

/// The channel `k` (0 for red, up to 3 for alpha) of a color.
pub open spec fn channel(c: u128, k: int) -> u32 {
    if k == 0 {
        (c >> 96u128) as u32
    } else if k == 1 {
        (c >> 64u128) as u32
    } else if k == 2 {
        (c >> 32u128) as u32
    } else {
        c as u32
    }
}

/// Two colors are equal as colors: each channel is equal as an `f32` value, as the `==` of
/// sRGBA colors compares them.
pub open spec fn color_eq(a: u128, b: u128) -> bool {
    &&& channel_eq(channel(a, 0), channel(b, 0))
    &&& channel_eq(channel(a, 1), channel(b, 1))
    &&& channel_eq(channel(a, 2), channel(b, 2))
    &&& channel_eq(channel(a, 3), channel(b, 3))
}

/// Channel equality is symmetric and transitive.
proof fn lemma_channel_eq(a: u32, b: u32, c: u32)
    ensures
        channel_eq(a, b) ==> channel_eq(b, a),
        channel_eq(a, b) && channel_eq(b, c) ==> channel_eq(a, c),
{
    assert(channel_eq(a, b) ==> channel_eq(b, a)) by (bit_vector);
    assert(channel_eq(a, b) && channel_eq(b, c) ==> channel_eq(a, c)) by (bit_vector);
}

/// Color equality is symmetric and transitive.
proof fn lemma_color_eq(a: u128, b: u128, c: u128)
    ensures
        color_eq(a, b) ==> color_eq(b, a),
        color_eq(a, b) && color_eq(b, c) ==> color_eq(a, c),
{
    lemma_channel_eq(channel(a, 0), channel(b, 0), channel(c, 0));
    lemma_channel_eq(channel(a, 1), channel(b, 1), channel(c, 1));
    lemma_channel_eq(channel(a, 2), channel(b, 2), channel(c, 2));
    lemma_channel_eq(channel(a, 3), channel(b, 3), channel(c, 3));
}

/// Whether two channels are equal as `f32` values.
fn channel_equal(a: u32, b: u32) -> (res: bool)
    ensures
        res == channel_eq(a, b),
{
    let a_nan = (a & 0x7f80_0000u32) == 0x7f80_0000u32 && (a & 0x007f_ffffu32) != 0;
    let b_nan = (b & 0x7f80_0000u32) == 0x7f80_0000u32 && (b & 0x007f_ffffu32) != 0;
    !a_nan && !b_nan && (a == b || ((a & 0x7fff_ffffu32) == 0 && (b & 0x7fff_ffffu32) == 0))
}

/// Whether two colors are equal as colors.
pub fn colors_equal(a: u128, b: u128) -> (res: bool)
    ensures
        res == color_eq(a, b),
{
    channel_equal((a >> 96u128) as u32, (b >> 96u128) as u32) && channel_equal(
        (a >> 64u128) as u32,
        (b >> 64u128) as u32,
    ) && channel_equal((a >> 32u128) as u32, (b >> 32u128) as u32) && channel_equal(
        a as u32,
        b as u32,
    )
}

/// The index of the first color of `s` equal to `c` as a color, or `s.len()` where there is
/// none.
pub open spec fn first_index(s: Seq<u128>, c: u128) -> int
    decreases s.len(),
{
    if s.len() == 0 {
        0
    } else if color_eq(s[0], c) {
        0
    } else {
        1 + first_index(s.drop_first(), c)
    }
}

/// The list after `c` is used: `c` moves (or is added) to the front, the first color equal to
/// it is removed, and the list is cut to `MAX_RECENT` colors.
pub open spec fn with_recent(s: Seq<u128>, c: u128) -> Seq<u128> {
    let i = first_index(s, c);
    let rest = if i < s.len() {
        s.remove(i)
    } else {
        s
    };
    let t = seq![c] + rest;
    if t.len() > MAX_RECENT {
        t.drop_last()
    } else {
        t
    }
}

/// No two colors of the list are equal as colors.
pub open spec fn distinct_colors(s: Seq<u128>) -> bool {
    forall|a: int, b: int| 0 <= a < b < s.len() ==> !color_eq(#[trigger] s[a], #[trigger] s[b])
}

/// The list holds a color equal to `c` as a color.
pub open spec fn holds_color(s: Seq<u128>, c: u128) -> bool {
    exists|k: int| 0 <= k < s.len() && color_eq(#[trigger] s[k], c)
}

/// Where the first color equal to `c` stands.
proof fn lemma_first_index(s: Seq<u128>, c: u128)
    ensures
        0 <= first_index(s, c) <= s.len(),
        forall|m: int| 0 <= m < first_index(s, c) ==> !color_eq(#[trigger] s[m], c),
        first_index(s, c) < s.len() ==> color_eq(s[first_index(s, c)], c),
        holds_color(s, c) <==> first_index(s, c) < s.len(),
    decreases s.len(),
{
    if s.len() > 0 && !color_eq(s[0], c) {
        lemma_first_index(s.drop_first(), c);
        assert forall|m: int| 0 <= m < first_index(s, c) implies !color_eq(#[trigger] s[m], c) by {
            if m > 0 {
                assert(s[m] == s.drop_first()[m - 1]);
            }
        }
        if holds_color(s, c) {
            let k = choose|k: int| 0 <= k < s.len() && color_eq(#[trigger] s[k], c);
            assert(s.drop_first()[k - 1] == s[k]);
        }
        if first_index(s, c) < s.len() {
            assert(s.drop_first()[first_index(s, c) - 1] == s[first_index(s, c)]);
            assert(color_eq(s[first_index(s, c)], c));
        }
    } else if s.len() > 0 {
        assert(color_eq(s[0], c));
    }
}

impl RecentColors {
    /// Records a use of `color`: moves it to the front of the list, removing the first color
    /// equal to it, and trims the list to `MAX_RECENT` colors.
    pub fn add(&mut self, color: u128)
        ensures
            final(self).0@ == with_recent(old(self).0@, color),
    {
        proof {
            lemma_first_index(self.0@, color);
        }
        let mut index: usize = 0;
        while index < self.0.len() && !colors_equal(self.0[index], color)
            invariant
                index <= self.0.len(),
                self.0@ == old(self).0@,
                forall|m: int| 0 <= m < index ==> !color_eq(#[trigger] self.0@[m], color),
            decreases self.0.len() - index,
        {
            index += 1;
        }
        proof {
            assert(index as int == first_index(self.0@, color)) by {
                lemma_first_index(self.0@, color);
                if (index as int) < first_index(self.0@, color) {
                    assert(!color_eq(self.0@[index as int], color));
                }
            }
        }
        if index < self.0.len() {
            self.0.remove(index);
        }
        self.0.insert(0, color);
        if self.0.len() > MAX_RECENT {
            self.0.pop();
        }
        proof {
            assert(self.0@ =~= with_recent(old(self).0@, color));
        }
    }
}

/// Adding a color puts it first, keeps no two colors of the list equal as colors where none
/// were, keeps the list within `MAX_RECENT` colors, and brings in no color but the one added.
pub proof fn lemma_recent_colors(s: Seq<u128>, c: u128)
    requires
        distinct_colors(s),
        s.len() <= MAX_RECENT,
    ensures
        with_recent(s, c)[0] == c,
        distinct_colors(with_recent(s, c)),
        with_recent(s, c).len() <= MAX_RECENT,
        with_recent(s, c).contains(c),
        forall|x: u128| #[trigger] with_recent(s, c).contains(x) ==> x == c || s.contains(x),
        forall|x: u128|
            s.contains(x) && !color_eq(x, c) && s.len() < MAX_RECENT ==> #[trigger] with_recent(s, c).contains(x),
{
    lemma_first_index(s, c);
    let i = first_index(s, c);
    let rest = if i < s.len() {
        s.remove(i)
    } else {
        s
    };
    let sidx = |k: int| if i < s.len() && k >= i { k + 1 } else { k };
    assert forall|k: int| 0 <= k < rest.len() implies rest[k] == s[sidx(k)] && 0 <= sidx(k) < s.len() by {}
    assert forall|k: int| 0 <= k < rest.len() implies !color_eq(#[trigger] rest[k], c) by {
        let j = sidx(k);
        if j < i {
            assert(!color_eq(s[j], c));
        } else if color_eq(s[j], c) {
            // s[i] and s[j] would both equal c, and so each other.
            lemma_color_eq(s[j], c, c);
            lemma_color_eq(s[i], c, s[j]);
            assert(!color_eq(s[i], s[j]));
        }
    }
    assert(distinct_colors(rest)) by {
        assert forall|a: int, b: int| 0 <= a < b < rest.len() implies !color_eq(#[trigger] rest[a], #[trigger] rest[b]) by {
            assert(rest[a] == s[sidx(a)] && rest[b] == s[sidx(b)]);
            assert(sidx(a) < sidx(b));
        }
    }
    let t = seq![c] + rest;
    assert(distinct_colors(t)) by {
        assert forall|a: int, b: int| 0 <= a < b < t.len() implies !color_eq(#[trigger] t[a], #[trigger] t[b]) by {
            if a == 0 {
                assert(t[b] == rest[b - 1]);
                assert(!color_eq(rest[b - 1], c));
                lemma_color_eq(c, rest[b - 1], rest[b - 1]);
            } else {
                assert(t[a] == rest[a - 1] && t[b] == rest[b - 1]);
            }
        }
    }
    let r = with_recent(s, c);
    assert(r[0] == c);
    assert(distinct_colors(r)) by {
        assert forall|a: int, b: int| 0 <= a < b < r.len() implies !color_eq(#[trigger] r[a], #[trigger] r[b]) by {
            assert(r[a] == t[a] && r[b] == t[b]);
        }
    }
    assert forall|x: u128| #[trigger] r.contains(x) implies x == c || s.contains(x) by {
        let k = choose|k: int| 0 <= k < r.len() && r[k] == x;
        if k > 0 {
            assert(rest[k - 1] == x);
            assert(s[sidx(k - 1)] == x);
        }
    }
    assert forall|x: u128| s.contains(x) && !color_eq(x, c) && s.len() < MAX_RECENT implies #[trigger] r.contains(x) by {
        let k = choose|k: int| 0 <= k < s.len() && s[k] == x;
        if i < s.len() {
            assert(k != i);
            if k < i {
                assert(r[k + 1] == x);
            } else {
                assert(r[k] == x);
            }
        } else {
            assert(r[k + 1] == x);
        }
    }
}

/// Channels compare as `f32` values do: a channel is not a number exactly when its magnitude
/// bits exceed those of infinity; such a channel equals nothing, itself included; every other
/// channel equals itself; the two zeros are equal; and apart from the zeros, channels are
/// equal only where their bits are.
pub proof fn lemma_channel_eq_is_float_equality(a: u32, b: u32)
    ensures
        is_nan_bits(a) <==> (a & 0x7fff_ffffu32) > 0x7f80_0000u32,
        is_nan_bits(a) ==> !channel_eq(a, b) && !channel_eq(b, a),
        !is_nan_bits(a) ==> channel_eq(a, a),
        (a & 0x7fff_ffffu32) == 0 && (b & 0x7fff_ffffu32) == 0 ==> channel_eq(a, b),
        (a & 0x7fff_ffffu32) != 0 ==> (channel_eq(a, b) <==> !is_nan_bits(a) && a == b),
{
    assert(is_nan_bits(a) <==> (a & 0x7fff_ffffu32) > 0x7f80_0000u32) by (bit_vector);
    assert((a & 0x7fff_ffffu32) == 0 && (b & 0x7fff_ffffu32) == 0 ==> channel_eq(a, b)) by (bit_vector);
    assert((a & 0x7fff_ffffu32) != 0 ==> (channel_eq(a, b) <==> !is_nan_bits(a) && a == b)) by (bit_vector);
}

} // verus!
