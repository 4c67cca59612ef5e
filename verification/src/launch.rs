use vstd::prelude::*;
use crate::cell::Rgb;

verus! {

/// The most rockets in the air at once before load and quality scaling, by
/// launch-rate option: 2 for the calm rate (0), 5 for the busy rate (2), 3
/// otherwise.
pub fn base_max_rockets(launch_rate_opt: u32) -> (n: u32)
    ensures
        n == (if launch_rate_opt == 0 {
            2u32
        } else if launch_rate_opt == 2 {
            5u32
        } else {
            3u32
        }),
{
    match launch_rate_opt {
        0 => 2,
        2 => 5,
        _ => 3,
    }
}

/// How many launches a wave holds before the sky goes quiet: two plus a draw
/// below two on battery, three plus a draw below three otherwise.
pub fn wave_cap(on_battery: bool, draw: usize) -> (cap: u32)
    requires
        draw < (if on_battery { 2usize } else { 3usize }),
    ensures
        cap == (if on_battery { 2 + draw } else { 3 + draw }),
        2 <= cap <= 5,
{
    if on_battery {
        2 + draw as u32
    } else {
        3 + draw as u32
    }
}

/// The wave count after one more launch, and whether the sky goes quiet:
/// the count (saturating) reaches the cap, ending the wave and starting the
/// count again from zero.
pub open spec fn wave_step(wave_launches: u32, cap: u32) -> (u32, bool) {
    let n = if wave_launches == u32::MAX { u32::MAX as int } else { wave_launches + 1 };
    if n >= cap {
        (0u32, true)
    } else {
        (n as u32, false)
    }
}

/// The wave count and quiet signal after `k` launches from count `n`.
pub open spec fn waves_after(n: u32, cap: u32, k: nat) -> (u32, bool)
    decreases k,
{
    if k == 0 {
        (n, false)
    } else {
        wave_step(waves_after(n, cap, (k - 1) as nat).0, cap)
    }
}

/// Counts one more launch in the current wave. Once the count reaches the
/// wave's cap the wave ends: the count starts again from zero and the
/// second result asks for a quiet sky.
pub fn advance_wave(wave_launches: u32, cap: u32) -> (r: (u32, bool))
    ensures
        r == wave_step(wave_launches, cap),
        wave_launches as int + 1 >= cap as int ==> r == (0u32, true),
        wave_launches as int + 1 < cap as int ==> r == ((wave_launches as int + 1) as u32, false),
        cap > 0 ==> r.0 < cap,
{
    let n = wave_launches.saturating_add(1);
    if n >= cap {
        (0, true)
    } else {
        (n, false)
    }
}

/// A launch whose count (one more than the wave's count so far) reaches
/// the cap always ends the wave, asking for a quiet sky and starting the
/// count again from zero; any other launch just counts one more, without a
/// pause.
pub proof fn law_wave_quiet_at_cap(wave_launches: u32, cap: u32)
    ensures
        wave_launches as int + 1 >= cap as int ==> wave_step(wave_launches, cap) == (0u32, true),
        wave_launches as int + 1 < cap as int ==> wave_step(wave_launches, cap) == (
            (wave_launches as int + 1) as u32,
            false,
        ),
        wave_step(wave_launches, cap).1 <==> wave_launches as int + 1 >= cap as int,
{
}

/// A wave that starts from an empty count launches `cap - 1` rockets
/// without a pause, and the launch that reaches the cap sends the sky quiet
/// and starts a new wave.
pub proof fn law_wave_ends_at_cap(cap: u32, k: nat)
    requires
        1 <= k <= cap,
    ensures
        k < cap ==> waves_after(0, cap, k) == (k as u32, false),
        k == cap ==> waves_after(0, cap, k) == (0u32, true),
    decreases k,
{
    if k > 1 {
        law_wave_ends_at_cap(cap, (k - 1) as nat);
    } else {
        assert(waves_after(0, cap, 0) == (0u32, false));
    }
}

/// The colour picked by draw `k` from the firework palette followed by the
/// theme accent: `palette[k]`, or the accent for the draw just past the
/// palette.
pub fn palette_pick(palette: &Vec<Rgb>, accent: Rgb, k: usize) -> (c: Rgb)
    requires
        k <= palette@.len(),
    ensures
        c == (if k < palette@.len() { palette@[k as int] } else { accent }),
{
    if k < palette.len() {
        palette[k]
    } else {
        accent
    }
}

/// The glyph of a burst particle for draw `k`: `*`, `+`, `•`, and `.` for
/// every other draw.
pub fn burst_glyph(k: usize) -> (ch: char)
    ensures
        ch == (if k == 0 {
            '*'
        } else if k == 1 {
            '+'
        } else if k == 2 {
            '•'
        } else {
            '.'
        }),
{
    match k {
        0 => '*',
        1 => '+',
        2 => '•',
        _ => '.',
    }
}

/// The items of `s` from index `lo` on whose index is not among `marked`,
/// in their order.
pub open spec fn unmarked_from<T>(s: Seq<T>, marked: Seq<usize>, lo: int) -> Seq<T>
    decreases s.len() - lo,
{
    if lo < 0 || lo >= s.len() {
        Seq::empty()
    } else {
        let rest = unmarked_from(s, marked, lo + 1);
        if marked.contains(lo as usize) {
            rest
        } else {
            seq![s[lo]] + rest
        }
    }
}

/// Exactly `a` of the (increasing) marked indices lie below index `j`, and
/// `j` itself is not marked.
pub open spec fn rank_below(m: Seq<usize>, j: int, a: int) -> bool {
    &&& 0 <= a <= m.len()
    &&& a == 0 || m[a - 1] < j
    &&& a == m.len() || m[a] > j
}

/// `rank_below` holds exactly when the marked index just before position
/// `a` lies below `j` and the one at `a` lies above it.
pub proof fn law_rank_below(m: Seq<usize>, j: int, a: int)
    ensures
        rank_below(m, j, a) <==> (0 <= a <= m.len() && (a == 0 || m[a - 1] < j) && (a == m.len() || m[a]
            > j)),
{
}

/// The unmarked item at index `j`, with `a` marked indices below it, stands
/// at position `j - a` of the items kept; counted from `lo`, with `b` marked
/// indices below `lo`, it stands at `j - lo - (a - b)`.
proof fn lemma_unmarked_position<T>(s: Seq<T>, m: Seq<usize>, lo: int, b: int, j: int, a: int)
    requires
        forall|x: int, y: int| 0 <= x < y < m.len() ==> m[x] < m[y],
        0 <= lo <= j < s.len(),
        s.len() <= usize::MAX,
        0 <= b <= m.len(),
        b == 0 || m[b - 1] < lo,
        b == m.len() || m[b] >= lo,
        0 <= a <= m.len(),
        a == 0 || m[a - 1] < j,
        a == m.len() || m[a] > j,
    ensures
        b <= a,
        0 <= j - lo - (a - b) < unmarked_from(s, m, lo).len(),
        unmarked_from(s, m, lo)[j - lo - (a - b)] == s[j],
    decreases j - lo,
{
    if a < b {
        assert(m[a] <= m[b - 1]);
    }
    let lo_marked = b < m.len() && m[b] == lo;
    assert(m.contains(lo as usize) == lo_marked) by {
        if m.contains(lo as usize) {
            let x = choose|x: int| 0 <= x < m.len() && m[x] == lo as usize;
            if x < b {
                assert(m[x] <= m[b - 1]);
            }
            if x > b {
                assert(m[x] > m[b]);
            }
        }
        if lo_marked {
            assert(m[b] == lo as usize);
        }
    }
    let rest = unmarked_from(s, m, lo + 1);
    if lo == j {
        if a > b {
            assert(m[b] <= m[a - 1]);
        }
        assert(!lo_marked);
        assert(unmarked_from(s, m, lo) == seq![s[lo]] + rest);
    } else if lo_marked {
        if b + 1 < m.len() {
            assert(m[b + 1] > m[b]);
        }
        lemma_unmarked_position(s, m, lo + 1, b + 1, j, a);
        assert(unmarked_from(s, m, lo) == rest);
    } else {
        lemma_unmarked_position(s, m, lo + 1, b, j, a);
        assert(unmarked_from(s, m, lo) == seq![s[lo]] + rest);
    }
}

/// Taking the marked items out keeps every other item, in order: the item
/// at index `j` with `a` marked indices below it moves to position `j - a`.
pub proof fn law_unmarked_keep_order<T>(s: Seq<T>, m: Seq<usize>, j: int, a: int)
    requires
        forall|x: int, y: int| 0 <= x < y < m.len() ==> m[x] < m[y],
        0 <= j < s.len(),
        s.len() <= usize::MAX,
        0 <= a <= m.len(),
        a == 0 || m[a - 1] < j,
        a == m.len() || m[a] > j,
    ensures
        0 <= j - a < unmarked_from(s, m, 0).len(),
        unmarked_from(s, m, 0)[j - a] == s[j],
{
    lemma_unmarked_position(s, m, 0, 0, j, a);
}

/// Every unmarked item of `s` stands in `kept` at its index less the
/// number of marked indices below it.
proof fn lemma_kept_positions<T>(s: Seq<T>, m: Seq<usize>, kept: Seq<T>)
    requires
        forall|x: int, y: int| 0 <= x < y < m.len() ==> m[x] < m[y],
        s.len() <= usize::MAX,
        kept == unmarked_from(s, m, 0),
    ensures
        forall|j: int, a: int|
            0 <= j < s.len() && #[trigger] rank_below(m, j, a) ==> 0 <= j - a < kept.len() && kept[j
                - a] == s[j],
{
    assert forall|j: int, a: int| 0 <= j < s.len() && #[trigger] rank_below(m, j, a) implies 0 <= j - a
        < kept.len() && kept[j - a] == s[j] by {
        law_unmarked_keep_order(s, m, j, a);
    }
}

/// Takes the marked items out as `remove_marked` describes, stated through
/// `unmarked_from`.
fn take_marked<T>(items: &mut Vec<T>, marked: &Vec<usize>) -> (taken: Vec<T>)
    requires
        forall|a: int, b: int| 0 <= a < b < marked@.len() ==> marked@[a] < marked@[b],
        forall|a: int| 0 <= a < marked@.len() ==> marked@[a] < old(items)@.len(),
    ensures
        final(items)@ == unmarked_from(old(items)@, marked@, 0),
        taken@.len() == marked@.len(),
        forall|j: int|
            0 <= j < taken@.len() ==> #[trigger] taken@[j] == old(items)@[marked@[marked@.len() - 1
                - j] as int],
        final(items)@.len() + taken@.len() == old(items)@.len(),
{
    let ghost s = items@;
    let mlen = marked.len();
    let mut rest: Vec<T> = Vec::new();
    rest.append(items);
    let mut kept_rev: Vec<T> = Vec::new();
    let mut taken: Vec<T> = Vec::new();
    let mut pe: usize = mlen;
    while rest.len() > 0
        invariant
            rest@ == s.take(rest@.len() as int),
            rest@.len() <= s.len(),
            items@.len() == 0,
            mlen == marked@.len(),
            pe <= mlen,
            forall|a: int, b: int| 0 <= a < b < marked@.len() ==> marked@[a] < marked@[b],
            forall|a: int| 0 <= a < marked@.len() ==> marked@[a] < s.len(),
            forall|a: int| 0 <= a < pe ==> marked@[a] < rest@.len(),
            forall|a: int| pe <= a < mlen ==> marked@[a] >= rest@.len(),
            kept_rev@ == unmarked_from(s, marked@, rest@.len() as int).reverse(),
            taken@.len() == mlen - pe,
            forall|j: int|
                0 <= j < taken@.len() ==> #[trigger] taken@[j] == s[marked@[mlen - 1 - j] as int],
            kept_rev@.len() + taken@.len() + rest@.len() == s.len(),
        decreases rest@.len(),
    {
        let ghost before_taken = taken@;
        if let Some(x) = rest.pop() {
            let i = rest.len();
            assert(x == s[i as int]);
            if pe > 0 && marked[pe - 1] == i {
                taken.push(x);
                pe = pe - 1;
                proof {
                    assert(marked@.contains(i));
                    assert(unmarked_from(s, marked@, i as int) == unmarked_from(s, marked@, i + 1));
                    assert forall|j: int| 0 <= j < taken@.len() implies #[trigger] taken@[j] == s[marked@[mlen - 1 - j] as int] by {
                        if j < before_taken.len() {
                            assert(taken@[j] == before_taken[j]);
                        }
                    }
                }
            } else {
                kept_rev.push(x);
                proof {
                    assert(!marked@.contains(i)) by {
                        if marked@.contains(i) {
                            let a = choose|a: int| 0 <= a < marked@.len() && marked@[a] == i;
                            if a < pe as int {
                                if a < pe - 1 {
                                    assert(marked@[a] < marked@[pe - 1]);
                                }
                            }
                        }
                    }
                    let u = unmarked_from(s, marked@, i + 1);
                    assert(unmarked_from(s, marked@, i as int) == seq![x] + u);
                    assert((seq![x] + u).reverse() =~= u.reverse().push(x));
                }
            }
            proof {
                assert(rest@ =~= s.take(i as int));
                assert forall|a: int| 0 <= a < pe implies marked@[a] < rest@.len() by {
                    if a < pe - 1 || !(marked@[a] == i) {
                        if a < pe as int - 1 {
                            assert(marked@[a] < marked@[pe - 1]);
                        }
                    }
                }
            }
        }
    }
    proof {
        if pe > 0 {
            assert(marked@[0] < rest@.len());
        }
    }
    assert(pe == 0);
    let ghost kept = unmarked_from(s, marked@, 0);
    assert(kept_rev@ == kept.reverse());
    while kept_rev.len() > 0
        invariant
            items@ == kept.take(items@.len() as int),
            kept_rev@ == kept.subrange(items@.len() as int, kept.len() as int).reverse(),
            items@.len() + kept_rev@.len() == kept.len(),
        decreases kept_rev@.len(),
    {
        let ghost k = items@.len() as int;
        if let Some(x) = kept_rev.pop() {
            assert(x == kept[k as int]);
            items.push(x);
            assert(items@ =~= kept.take(k + 1));
            assert(kept_rev@ =~= kept.subrange(k + 1, kept.len() as int).reverse());
        }
    }
    assert(items@ =~= kept);
    taken
}

/// Takes the items at the `marked` indices (given in increasing order) out
/// of `items`. The items left keep their order; the items taken come back
/// highest index first, the order in which exploding rockets are handled.
pub fn remove_marked<T>(items: &mut Vec<T>, marked: &Vec<usize>) -> (taken: Vec<T>)
    requires
        forall|a: int, b: int| 0 <= a < b < marked@.len() ==> marked@[a] < marked@[b],
        forall|a: int| 0 <= a < marked@.len() ==> marked@[a] < old(items)@.len(),
    ensures
        final(items)@ == unmarked_from(old(items)@, marked@, 0),
        taken@.len() == marked@.len(),
        forall|j: int|
            0 <= j < taken@.len() ==> #[trigger] taken@[j] == old(items)@[marked@[marked@.len() - 1
                - j] as int],
        final(items)@.len() + taken@.len() == old(items)@.len(),
        // stated on the vectors themselves: the item at index `j` with `a`
        // marked indices below it (and not marked itself) is kept at `j - a`
        forall|j: int, a: int|
            0 <= j < old(items)@.len() && #[trigger] rank_below(marked@, j, a) ==> 0 <= j - a
                < final(items)@.len() && final(items)@[j - a] == old(items)@[j],
        final(items)@.len() == old(items)@.len() - marked@.len(),
{
    let ghost s = items@;
    let glen = items.len();
    let taken = take_marked(items, marked);
    proof {
        lemma_kept_positions(s, marked@, items@);
    }
    taken
}

} // verus!
