use vstd::prelude::*;
use core::ops::Range;
use crate::buffer::{Buffer, BufferView, text_view};
use crate::error::Error;
use crate::multi_buffer::{
    ExcerptRange, MultiBuffer, MultiBufferView, excerpts_for, range_fits,
};

verus! {

/// `serde_json::Map`, the JSON object of serde_json: a map from keys to
/// JSON values. Verus sees nothing inside it.
#[verifier::external_type_specification]
#[verifier::external_body]
#[verifier::reject_recursive_types(K)]
#[verifier::reject_recursive_types(V)]
pub struct ExJsonMap<K, V>(serde_json::Map<K, V>);

/// `serde_json::Value`, a JSON value of serde_json. Verus sees nothing
/// inside it.
#[verifier::external_type_specification]
#[verifier::external_body]
pub struct ExJsonValue(serde_json::Value);

/// The entries of a JSON object whose value is a JSON string: each such key
/// with the text of its string.
pub uninterp spec fn string_entries(m: serde_json::Map<String, serde_json::Value>) -> Map<
    Seq<char>,
    Seq<char>,
>;

/// The map without entries.
pub open spec fn no_entries() -> Map<Seq<char>, Seq<char>> {
    Map::empty()
}

/// `Map::new` of serde_json makes an empty map.
#[verifier::external_body]
fn new_folder() -> (folder: serde_json::Map<String, serde_json::Value>)
    ensures
        string_entries(folder) == no_entries(),
{
    serde_json::Map::new()
}

/// `Map::insert` of serde_json puts the value under the key, in place of
/// the value that was there if the key was present, and leaves the other
/// keys as they are. The value put here is the JSON string of `text`.
#[verifier::external_body]
fn put_text(m: &mut serde_json::Map<String, serde_json::Value>, key: String, text: String)
    ensures
        string_entries(*final(m)) == string_entries(*old(m)).insert(key@, text@),
{
    m.insert(key, serde_json::Value::String(text));
}

/// What a test says of one buffer: its text with the ranges to show, the
/// text it is compared with, and the name of its file, where it has one.
pub struct TestBufferDescription {
    pub marked_text: (String, Vec<Range<usize>>),
    pub base_text: Option<String>,
    pub file_name: Option<String>,
}

/// Something that describes a buffer for a test.
pub trait AsBuffer {
    /// The description of the buffer.
    fn as_buffer(&self) -> TestBufferDescription;
}

/// A copy of the ranges.
fn copy_ranges(ranges: &Vec<Range<usize>>) -> (out: Vec<Range<usize>>)
    ensures
        out@ == ranges@,
{
    let mut out: Vec<Range<usize>> = Vec::new();
    let mut i: usize = 0;
    while i < ranges.len()
        invariant
            i <= ranges.len(),
            out@ == ranges@.take(i as int),
        decreases ranges.len() - i,
    {
        out.push(Range { start: ranges[i].start, end: ranges[i].end });
        i += 1;
        assert(ranges@.take(i as int) == ranges@.take(i - 1).push(ranges@[i - 1]));
    }
    assert(ranges@.take(ranges.len() as int) == ranges@);
    out
}

impl TestBufferDescription {
    /// A description of a buffer without a file.
    pub fn new(text: String, ranges: Vec<Range<usize>>) -> (d: Self)
        ensures
            d.marked_text == (text, ranges),
            d.base_text is None,
            d.file_name is None,
    {
        TestBufferDescription { marked_text: (text, ranges), base_text: None, file_name: None }
    }

    /// A description of a buffer with a file.
    pub fn with_file(file_name: String, text: String, ranges: Vec<Range<usize>>) -> (d: Self)
        ensures
            d.marked_text == (text, ranges),
            d.base_text is None,
            d.file_name == Some(file_name),
    {
        TestBufferDescription {
            marked_text: (text, ranges),
            base_text: None,
            file_name: Some(file_name),
        }
    }

    /// A description of a buffer with a file and a text to compare with.
    pub fn with_base(
        file_name: String,
        text: String,
        ranges: Vec<Range<usize>>,
        base_text: String,
    ) -> (d: Self)
        ensures
            d.marked_text == (text, ranges),
            d.base_text == Some(base_text),
            d.file_name == Some(file_name),
    {
        TestBufferDescription {
            marked_text: (text, ranges),
            base_text: Some(base_text),
            file_name: Some(file_name),
        }
    }
}

impl AsBuffer for TestBufferDescription {
    /// A description describes itself: the result is a copy of it, with the
    /// same text, the same ranges in the same order, the same text to
    /// compare with and the same file name.
    fn as_buffer(&self) -> (d: TestBufferDescription)
        ensures
            d.marked_text.0 == self.marked_text.0,
            d.marked_text.1@ == self.marked_text.1@,
            d.base_text == self.base_text,
            d.file_name == self.file_name,
            text_of(d) == text_of(*self),
            ranges_of(d) == ranges_of(*self),
    {
        TestBufferDescription {
            marked_text: (self.marked_text.0.clone(), copy_ranges(&self.marked_text.1)),
            base_text: match &self.base_text {
                Some(text) => Some(text.clone()),
                None => None,
            },
            file_name: match &self.file_name {
                Some(name) => Some(name.clone()),
                None => None,
            },
        }
    }
}

/// The text of the description.
pub open spec fn text_of(d: TestBufferDescription) -> Seq<char> {
    d.marked_text.0@
}

/// The excerpts that the description asks for: one for each range, without
/// a primary part.
pub open spec fn ranges_of(d: TestBufferDescription) -> Seq<ExcerptRange> {
    Seq::new(
        d.marked_text.1@.len(),
        |k: int|
            ExcerptRange {
                context_start: d.marked_text.1@[k].start,
                context_end: d.marked_text.1@[k].end,
                primary: None,
            },
    )
}

/// Every range of the description lies within its text.
pub open spec fn description_fits(d: TestBufferDescription) -> bool {
    forall|k: int|
        0 <= k < ranges_of(d).len() ==> range_fits(#[trigger] ranges_of(d)[k], text_of(d).len() as int)
}

/// The multi-buffer with one more member for the description, and the
/// excerpts that the description asks for. The member gets its index as its
/// id, the description's text as its text, and the description's base text
/// as the text it is compared with.
pub open spec fn with_description(v: MultiBufferView, d: TestBufferDescription) -> MultiBufferView {
    let member = BufferView {
        id: v.buffers.len() as u64,
        initial: text_of(d),
        log: Seq::empty(),
        diff_base: text_view(d.base_text),
    };
    MultiBufferView {
        buffers: v.buffers.push(member),
        excerpts: v.excerpts + excerpts_for(member, v.buffers.len() as usize, v.next_id, ranges_of(d)),
        separators: v.separators,
        next_id: (v.next_id + ranges_of(d).len()) as u64,
    }
}

/// The multi-buffer built from the descriptions in order.
pub open spec fn built(descriptions: Seq<TestBufferDescription>, separators: bool) -> MultiBufferView
    decreases descriptions.len(),
{
    if descriptions.len() == 0 {
        MultiBufferView { buffers: Seq::empty(), excerpts: Seq::empty(), separators, next_id: 0 }
    } else {
        with_description(built(descriptions.drop_last(), separators), descriptions.last())
    }
}

/// The files of the descriptions: the text of each description that names
/// a file, under that name. Where two name the same file, the later one
/// counts.
pub open spec fn folder_of(descriptions: Seq<TestBufferDescription>) -> Map<Seq<char>, Seq<char>>
    decreases descriptions.len(),
{
    if descriptions.len() == 0 {
        Map::empty()
    } else {
        match descriptions.last().file_name {
            Some(name) => folder_of(descriptions.drop_last()).insert(
                name@,
                text_of(descriptions.last()),
            ),
            None => folder_of(descriptions.drop_last()),
        }
    }
}

/// Some description names a file.
pub open spec fn names_file(descriptions: Seq<TestBufferDescription>) -> bool {
    exists|k: int| 0 <= k < descriptions.len() && (#[trigger] descriptions[k]).file_name is Some
}

/// The number of ranges of all the descriptions.
pub open spec fn total_ranges(descriptions: Seq<TestBufferDescription>) -> int
    decreases descriptions.len(),
{
    if descriptions.len() == 0 {
        0
    } else {
        total_ranges(descriptions.drop_last()) + descriptions.last().marked_text.1@.len()
    }
}

/// The first descriptions have no more ranges than all of them.
pub proof fn lemma_total_ranges_grows(descriptions: Seq<TestBufferDescription>, i: int)
    requires
        0 <= i <= descriptions.len(),
    ensures
        0 <= total_ranges(descriptions.take(i)) <= total_ranges(descriptions),
    decreases descriptions.len(),
{
    if i == descriptions.len() {
        assert(descriptions.take(i) == descriptions);
        if i > 0 {
            lemma_total_ranges_grows(descriptions.drop_last(), i - 1);
        }
    } else {
        assert(descriptions.take(i) == descriptions.drop_last().take(i));
        lemma_total_ranges_grows(descriptions.drop_last(), i);
    }
}

/// Builds the multi-buffer that the descriptions describe: one member
/// buffer for each description, with the description's text and base text,
/// and one excerpt for each of its ranges. Where a range does not lie
/// within its text, the result is `InvalidRange`. Every excerpt gets an id,
/// so the ranges of all descriptions must not be more than there are ids.
pub fn build_multibuffer(descriptions: &Vec<TestBufferDescription>, separators: bool) -> (r: Result<
    MultiBuffer,
    Error,
>)
    requires
        total_ranges(descriptions@) <= u64::MAX,
    ensures
        match r {
            Ok(m) => {
                &&& m.wf()
                &&& m@ == built(descriptions@, separators)
                &&& forall|k: int|
                    0 <= k < descriptions@.len() ==> description_fits(#[trigger] descriptions@[k])
                &&& forall|k: int|
                    0 <= k < descriptions@.len() ==> (#[trigger] m@.buffers[k]).diff_base
                        == text_view(descriptions@[k].base_text) && m@.buffers[k].content()
                        == text_of(descriptions@[k]) && m@.buffers[k].id == k
            },
            Err(e) => {
                &&& e == Error::InvalidRange
                &&& exists|k: int|
                    0 <= k < descriptions@.len() && !description_fits(#[trigger] descriptions@[k])
            },
        },
{
    let mut m = MultiBuffer::new(separators);
    let mut i: usize = 0;
    proof {
        assert(descriptions@.take(0) =~= Seq::empty());
    }
    while i < descriptions.len()
        invariant
            i <= descriptions.len(),
            total_ranges(descriptions@) <= u64::MAX,
            m.wf(),
            m@ == built(descriptions@.take(i as int), separators),
            m@.buffers.len() == i,
            m@.next_id == total_ranges(descriptions@.take(i as int)),
            forall|k: int| 0 <= k < i ==> description_fits(#[trigger] descriptions@[k]),
            forall|k: int|
                0 <= k < i ==> (#[trigger] m@.buffers[k]).diff_base == text_view(
                    descriptions@[k].base_text,
                ) && m@.buffers[k].content() == text_of(descriptions@[k]) && m@.buffers[k].id == k,
        decreases descriptions.len() - i,
    {
        let d = &descriptions[i];
        let ghost before = m@;
        let mut buffer = Buffer::new(i as u64, d.marked_text.0.as_str());
        buffer.set_diff_base(
            match &d.base_text {
                Some(text) => Some(text.clone()),
                None => None,
            },
        );
        let ghost member = buffer@;
        let index = m.add_buffer(buffer);
        let mut ranges: Vec<ExcerptRange> = Vec::new();
        let mut k: usize = 0;
        while k < d.marked_text.1.len()
            invariant
                k <= d.marked_text.1.len(),
                ranges@.len() == k,
                forall|j: int| 0 <= j < k ==> (#[trigger] ranges@[j]) == ranges_of(*d)[j],
            decreases d.marked_text.1.len() - k,
        {
            let r = &d.marked_text.1[k];
            ranges.push(ExcerptRange { context_start: r.start, context_end: r.end, primary: None });
            k += 1;
        }
        proof {
            assert(ranges@ =~= ranges_of(*d));
            let part = descriptions@.take(i + 1);
            assert(part.drop_last() == descriptions@.take(i as int));
            assert(part.last() == *d);
            lemma_total_ranges_grows(descriptions@, i + 1);
            assert(member.log.take(member.revision()) == member.log);
        }
        match m.push_excerpts(index, &ranges) {
            Ok(_) => {
                proof {
                    assert(m@ == with_description(before, *d));
                    assert(description_fits(*d));
                    assert forall|k: int| 0 <= k < i + 1 implies (#[trigger] m@.buffers[k]).diff_base
                        == text_view(descriptions@[k].base_text) && m@.buffers[k].content()
                        == text_of(descriptions@[k]) && m@.buffers[k].id == k by {
                        if k < i {
                            assert(m@.buffers[k] == before.buffers[k]);
                        }
                    }
                }
            },
            Err(e) => {
                proof {
                    assert(!description_fits(descriptions@[i as int]));
                }
                return Err(e);
            },
        }
        i += 1;
    }
    proof {
        assert(descriptions@.take(i as int) == descriptions@);
    }
    Ok(m)
}

/// The folder of files for the descriptions, as a JSON object from file
/// names to texts, and whether any description names a file.
pub fn folder_for(descriptions: &Vec<TestBufferDescription>) -> (r: (
    bool,
    serde_json::Map<String, serde_json::Value>,
))
    ensures
        r.0 == names_file(descriptions@),
        string_entries(r.1) == folder_of(descriptions@),
{
    let mut has_file: bool = false;
    let mut folder = new_folder();
    let mut i: usize = 0;
    proof {
        assert(descriptions@.take(0) =~= Seq::empty());
    }
    while i < descriptions.len()
        invariant
            i <= descriptions.len(),
            has_file == names_file(descriptions@.take(i as int)),
            string_entries(folder) == folder_of(descriptions@.take(i as int)),
        decreases descriptions.len() - i,
    {
        let d = &descriptions[i];
        let ghost part = descriptions@.take(i + 1);
        proof {
            assert(part.drop_last() == descriptions@.take(i as int));
            assert(part.last() == *d);
            if names_file(descriptions@.take(i as int)) {
                let k = choose|k: int|
                    0 <= k < i && (#[trigger] descriptions@.take(i as int)[k]).file_name is Some;
                assert(part[k].file_name is Some);
            }
            if names_file(part) && d.file_name is None {
                let k = choose|k: int| 0 <= k < i + 1 && (#[trigger] part[k]).file_name is Some;
                assert(descriptions@.take(i as int)[k].file_name is Some);
            }
        }
        match &d.file_name {
            Some(name) => {
                assert(part[i as int].file_name is Some);
                has_file = true;
                put_text(&mut folder, name.clone(), d.marked_text.0.clone());
            },
            None => {},
        }
        i += 1;
    }
    proof {
        assert(descriptions@.take(i as int) == descriptions@);
    }
    (has_file, folder)
}

} // verus!
