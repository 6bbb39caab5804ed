//! Where the bars of a bar chart stand: one slot per element, and an empty
//! slot between two segments.

use crate::sorting_algorithms::{highlights_resolve, partition};
use vstd::prelude::*;

verus! {

/// The parts one after the other, with `separator` between each two.
pub open spec fn joined<T>(parts: Seq<Seq<T>>, separator: T) -> Seq<T>
    decreases parts.len(),
{
    if parts.len() == 0 {
        Seq::empty()
    } else if parts.len() == 1 {
        parts[0]
    } else {
        joined(parts.drop_last(), separator) + seq![separator] + parts.last()
    }
}

/// The slot of the first element of part `index`: each part before it takes
/// a slot for each of its elements and one more.
pub open spec fn start_of<T>(parts: Seq<Seq<T>>, index: int) -> int
    decreases index,
{
    if index <= 0 {
        0
    } else {
        start_of(parts, index - 1) + parts[index - 1].len() + 1
    }
}

/// For each element of each segment, its slot.
pub open spec fn slots_of(segments: Seq<Seq<usize>>) -> Seq<Seq<usize>> {
    Seq::new(
        segments.len(),
        |i: int| Seq::new(segments[i].len(), |j: int| (start_of(segments, i) + j) as usize),
    )
}

/// For each segment, as many times `true` as it has elements.
pub open spec fn marks_of(segments: Seq<Seq<usize>>) -> Seq<Seq<bool>> {
    Seq::new(segments.len(), |i: int| Seq::new(segments[i].len(), |j: int| true))
}

/// Whether `greatest` is the greatest element of `list`, or 0 for an empty
/// list.
pub open spec fn is_greatest(list: Seq<usize>, greatest: usize) -> bool {
    if list.len() == 0 {
        greatest == 0
    } else {
        list.contains(greatest) && forall|k: int| 0 <= k < list.len() ==> list[k] <= greatest
    }
}

/// Whether `least` is the least element of `list`, or 0 for an empty list.
pub open spec fn is_least(list: Seq<usize>, least: usize) -> bool {
    if list.len() == 0 {
        least == 0
    } else {
        list.contains(least) && forall|k: int| 0 <= k < list.len() ==> least <= list[k]
    }
}

/// The slots of a bar chart.
pub struct BarLayout {
    /// For each slot, whether an element stands in it.
    pub filled: Vec<bool>,
    /// For each slot, the element in it; `min_value` in an empty slot.
    pub values: Vec<usize>,
    /// For each element of each segment, its slot.
    pub directory: Vec<Vec<usize>>,
    /// One less than the least element, and not less than 0: the height at
    /// which no bar shows.
    pub min_value: usize,
    /// The greatest element.
    pub max_value: usize,
}

/// The greatest and the least element of the lists; 0 and 0 where there is
/// none.
fn bounds(list: &Vec<Vec<usize>>) -> (bounds: (usize, usize))
    ensures
        is_greatest(partition(list@).flatten(), bounds.0),
        is_least(partition(list@).flatten(), bounds.1),
{
    let mut greatest: usize = 0;
    let mut least: usize = 0;
    let mut seen: bool = false;
    let ghost segments = partition(list@);
    let mut i: usize = 0;
    while i < list.len()
        invariant
            i <= list@.len(),
            segments == partition(list@),
            seen == (segments.take(i as int).flatten().len() > 0),
            is_greatest(segments.take(i as int).flatten(), greatest),
            is_least(segments.take(i as int).flatten(), least),
        decreases list@.len() - i,
    {
        let segment = &list[i];
        let ghost before = segments.take(i as int).flatten();
        let mut j: usize = 0;
        while j < segment.len()
            invariant
                j <= segment@.len(),
                seen == ((before + segment@.take(j as int)).len() > 0),
                is_greatest(before + segment@.take(j as int), greatest),
                is_least(before + segment@.take(j as int), least),
            decreases segment@.len() - j,
        {
            let value = segment[j];
            let ghost so_far = before + segment@.take(j as int);
            let ghost next = before + segment@.take(j + 1);
            assert(next == so_far.push(value));
            assert(next[next.len() - 1] == value);
            if !seen || value > greatest {
                greatest = value;
            } else {
                assert(next[so_far.index_of(greatest)] == greatest);
            }
            if !seen || value < least {
                least = value;
            } else {
                assert(next[so_far.index_of(least)] == least);
            }
            seen = true;
            j += 1;
        }
        proof {
            let done = segments.take(i as int);
            assert(segments.take(i + 1) == done.push(segment@));
            done.lemma_flatten_push(segment@);
            assert(segment@.take(segment@.len() as int) == segment@);
        }
        i += 1;
    }
    assert(segments.take(list@.len() as int) == segments);
    (greatest, least)
}

/// What `joined` makes of one part more.
pub proof fn lemma_joined_take<T>(parts: Seq<Seq<T>>, separator: T, count: int)
    requires
        0 <= count < parts.len(),
    ensures
        joined(parts.take(count + 1), separator) == if count == 0 {
            parts[0]
        } else {
            joined(parts.take(count), separator) + seq![separator] + parts[count]
        },
{
    let front = parts.take(count + 1);
    assert(front.drop_last() == parts.take(count));
    assert(front.last() == parts[count]);
}

/// The start of a part depends on the parts before it alone.
pub proof fn lemma_start_of_front<T>(parts: Seq<Seq<T>>, index: int)
    requires
        0 <= index < parts.len(),
    ensures
        start_of(parts.drop_last(), index) == start_of(parts, index),
    decreases index,
{
    if index > 0 {
        lemma_start_of_front(parts, index - 1);
    }
}

/// Where the parts of two lists are as long as each other, they start at the
/// same slots.
pub proof fn lemma_start_of_same_lengths<S, T>(a: Seq<Seq<S>>, b: Seq<Seq<T>>, index: int)
    requires
        a.len() == b.len(),
        forall|k: int| 0 <= k < a.len() ==> (#[trigger] a[k]).len() == b[k].len(),
        0 <= index <= a.len(),
    ensures
        start_of(a, index) == start_of(b, index),
    decreases index,
{
    if index > 0 {
        lemma_start_of_same_lengths(a, b, index - 1);
    }
}

/// The joined parts are one slot short of where one more part would start.
pub proof fn lemma_joined_len<T>(parts: Seq<Seq<T>>, separator: T)
    requires
        parts.len() >= 1,
    ensures
        joined(parts, separator).len() + 1 == start_of(parts, parts.len() as int),
    decreases parts.len(),
{
    reveal_with_fuel(start_of, 2);
    if parts.len() > 1 {
        lemma_joined_len(parts.drop_last(), separator);
        lemma_start_of_front(parts, parts.len() - 1);
    }
}

/// Each element stands in its slot: element `place` of part `index` is found
/// at `start_of(parts, index) + place`.
pub proof fn lemma_slot_holds_element<T>(parts: Seq<Seq<T>>, separator: T, index: int, place: int)
    requires
        0 <= index < parts.len(),
        0 <= place < parts[index].len(),
    ensures
        0 <= start_of(parts, index) + place < joined(parts, separator).len(),
        joined(parts, separator)[start_of(parts, index) + place] == parts[index][place],
    decreases parts.len(),
{
    if parts.len() > 1 {
        let front = parts.drop_last();
        lemma_joined_len(front, separator);
        lemma_start_of_front(parts, parts.len() - 1);
        if index < parts.len() - 1 {
            lemma_slot_holds_element(front, separator, index, place);
            lemma_start_of_front(parts, index);
        }
    }
}

/// The slots for the bars of `list`.
pub fn layout(list: &Vec<Vec<usize>>) -> (bars: BarLayout)
    ensures
        is_greatest(partition(list@).flatten(), bars.max_value),
        exists|least: usize|
            is_least(partition(list@).flatten(), least) && bars.min_value == if least == 0 {
                0usize
            } else {
                (least - 1) as usize
            },
        bars.values@ == joined(partition(list@), bars.min_value),
        bars.filled@ == joined(marks_of(partition(list@)), false),
        partition(bars.directory@) == slots_of(partition(list@)),
        bars.filled@.len() == bars.values@.len(),
        forall|i: int, j: int|
            0 <= i < list@.len() && 0 <= j < list@[i]@.len() ==> {
                let slot = #[trigger] bars.directory@[i]@[j];
                &&& slot < bars.values@.len()
                &&& bars.values@[slot as int] == list@[i]@[j]
                &&& bars.filled@[slot as int]
            },
{
    let (max_value, least) = bounds(list);
    let min_value = least.saturating_sub(1);
    let ghost segments = partition(list@);
    let ghost marks = marks_of(segments);
    let mut filled: Vec<bool> = Vec::new();
    let mut values: Vec<usize> = Vec::new();
    let mut directory: Vec<Vec<usize>> = Vec::new();
    let mut i: usize = 0;
    while i < list.len()
        invariant
            i <= list@.len(),
            segments == partition(list@),
            marks == marks_of(segments),
            values@ == joined(segments.take(i as int), min_value),
            filled@ == joined(marks.take(i as int), false),
            values@.len() + 1 == start_of(segments, i as int) || (i == 0 && values@.len() == 0),
            directory@.len() == i,
            forall|k: int|
                0 <= k < i ==> (#[trigger] directory@[k])@ == slots_of(segments)[k],
        decreases list@.len() - i,
    {
        let segment = &list[i];
        let ghost values_before = values@;
        let ghost filled_before = filled@;
        if i > 0 {
            values.push(min_value);
            filled.push(false);
        }
        let ghost values_open = values@;
        let ghost filled_open = filled@;
        assert(values@.len() == start_of(segments, i as int));
        let mut places: Vec<usize> = Vec::new();
        let mut j: usize = 0;
        while j < segment.len()
            invariant
                j <= segment@.len(),
                values@ == values_open + segment@.take(j as int),
                filled@ == filled_open + marks[i as int].take(j as int),
                segment@ == segments[i as int],
                marks == marks_of(segments),
                values_open.len() == start_of(segments, i as int),
                places@ == slots_of(segments)[i as int].take(j as int),
                0 <= i < segments.len(),
                segments.len() == marks.len(),
            decreases segment@.len() - j,
        {
            places.push(values.len());
            values.push(segment[j]);
            filled.push(true);
            j += 1;
            assert(values@ == values_open + segment@.take(j as int));
            assert(marks[i as int][j - 1]);
            assert(marks[i as int].take(j as int) == marks[i as int].take(j - 1).push(true));
            assert(filled@ == filled_open + marks[i as int].take(j as int));
            assert(places@ == slots_of(segments)[i as int].take(j as int));
        }
        proof {
            lemma_joined_take(segments, min_value, i as int);
            lemma_joined_take(marks, false, i as int);
            assert(segment@.take(segment@.len() as int) == segment@);
            assert(marks[i as int].take(segment@.len() as int) == marks[i as int]);
            assert(slots_of(segments)[i as int].take(segment@.len() as int) == slots_of(
                segments,
            )[i as int]);
            if i == 0 {
                assert(values_open + segment@ == segment@);
                assert(filled_open + marks[0] == marks[0]);
            } else {
                assert(values_open == values_before + seq![min_value]);
                assert(filled_open == filled_before + seq![false]);
            }
        }
        directory.push(places);
        i += 1;
    }
    assert(segments.take(list@.len() as int) == segments);
    assert(marks.take(list@.len() as int) == marks);
    assert(partition(directory@) == slots_of(segments));
    proof {
        if segments.len() > 0 {
            lemma_joined_len(segments, min_value);
            lemma_joined_len(marks, false);
            lemma_start_of_same_lengths(segments, marks, segments.len() as int);
        }
        assert forall|i: int, j: int| 0 <= i < list@.len() && 0 <= j < list@[i]@.len() implies {
            let slot = #[trigger] directory@[i]@[j];
            &&& slot < values@.len()
            &&& values@[slot as int] == list@[i]@[j]
            &&& filled@[slot as int]
        } by {
            let slot = start_of(segments, i) + j;
            assert(segments[i] == list@[i]@);
            assert(marks[i].len() == segments[i].len() && marks[i][j]);
            lemma_slot_holds_element(segments, min_value, i, j);
            lemma_slot_holds_element(marks, false, i, j);
            lemma_start_of_same_lengths(segments, marks, i);
            assert(partition(directory@)[i] == directory@[i]@);
            assert(values@ == joined(segments, min_value));
            assert(values@.len() == values.len());
            assert(0 <= slot < values@.len());
            assert(slots_of(segments)[i][j] == slot as usize);
            assert(directory@[i]@[j] == slot);
        }
    }
    BarLayout { filled, values, directory, min_value, max_value }
}

/// What `directory` holds for a highlight: the slot of the element it names.
pub open spec fn slot_of(directory: Seq<Vec<usize>>, highlight: (usize, usize)) -> usize {
    directory[highlight.0 as int]@[highlight.1 as int]
}

/// The slot of each highlight, looked up in `directory`.
pub fn highlight_indices(
    highlights: &Vec<(usize, usize)>,
    directory: &Vec<Vec<usize>>,
) -> (slots: Vec<usize>)
    requires
        highlights_resolve(highlights@, partition(directory@)),
    ensures
        slots@.len() == highlights@.len(),
        forall|k: int|
            0 <= k < slots@.len() ==> #[trigger] slots@[k] == slot_of(directory@, highlights@[k]),
{
    let mut slots: Vec<usize> = Vec::new();
    let mut k: usize = 0;
    while k < highlights.len()
        invariant
            k <= highlights@.len(),
            highlights_resolve(highlights@, partition(directory@)),
            slots@.len() == k,
            forall|n: int|
                0 <= n < k ==> #[trigger] slots@[n] == slot_of(directory@, highlights@[n]),
        decreases highlights@.len() - k,
    {
        let (segment, place) = highlights[k];
        assert(segment < partition(directory@).len());
        assert(place < partition(directory@)[segment as int].len());
        slots.push(directory[segment][place]);
        k += 1;
    }
    slots
}

/// Whether each highlight names an element of `list`.
pub fn highlights_fit(highlights: &Vec<(usize, usize)>, list: &Vec<Vec<usize>>) -> (fit: bool)
    ensures
        fit == highlights_resolve(highlights@, partition(list@)),
{
    let mut k: usize = 0;
    while k < highlights.len()
        invariant
            k <= highlights@.len(),
            highlights_resolve(highlights@.take(k as int), partition(list@)),
        decreases highlights@.len() - k,
    {
        let (segment, place) = highlights[k];
        if segment >= list.len() {
            return false;
        }
        assert(partition(list@)[segment as int] == list@[segment as int]@);
        if place >= list[segment].len() {
            return false;
        }
        k += 1;
        let ghost checked = highlights@.take(k as int);
        let ghost segments = partition(list@);
        assert forall|n: int| 0 <= n < k implies {
            &&& (#[trigger] checked[n]).0 < segments.len()
            &&& checked[n].1 < segments[checked[n].0 as int].len()
        } by {
            if n < k - 1 {
                assert(highlights@.take(k - 1)[n] == checked[n]);
            }
        }
    }
    assert(highlights@.take(k as int) == highlights@);
    true
}

} // verus!
