//! The bookkeeping of `fold`: the host walks a sequence and calls a
//! WebAssembly function on each item and the accumulator. The host makes the
//! calls; these drivers say, step by step, what each call gets and what
//! becomes of its result.
use vstd::prelude::*;

use crate::ptr::Ptr;
use crate::runtime::FuncResult;
use crate::serialization::{seq_ptrs, try_deserialize_clarity_seq_to_ptrs};
use crate::value::{Value, ValueModel, lemma_model_list_models, models};
use crate::values::{ValuesContext, ValuesModel};
use vstd::slice::slice_to_vec;

verus! {

/// The state of a fold over a list held in a value table.
pub ghost struct TableFoldModel {
    /// The items of the list.
    pub items: Seq<ValueModel>,
    /// The number of items already folded.
    pub next: nat,
    /// The slot each item is put in for its call.
    pub val_ptr: i32,
    /// The pointer of the accumulator.
    pub acc_ptr: i32,
}

/// A fold over a list held in a value table. Each call gets the slot holding
/// the current item and the accumulator's pointer, and returns the pointer of
/// the new accumulator; the old accumulator's slot is freed.
#[derive(Debug)]
pub struct TableFold {
    items: Vec<Value>,
    next: usize,
    val_ptr: i32,
    acc_ptr: i32,
}

impl View for TableFold {
    type V = TableFoldModel;

    closed spec fn view(&self) -> TableFoldModel {
        TableFoldModel {
            items: models(self.items@),
            next: self.next as nat,
            val_ptr: self.val_ptr,
            acc_ptr: self.acc_ptr,
        }
    }
}

/// Whether the slot `seq_ptr` of a value table holds a list.
pub open spec fn holds_list(m: ValuesModel, seq_ptr: i32) -> bool {
    m.valid(seq_ptr) && m.values[seq_ptr as int] matches Some(ValueModel::List(_))
}

impl TableFold {
    /// Starts a fold over the list in the slot `seq_ptr`, with the accumulator
    /// in `init_ptr`: takes the list out of the table and reserves a slot for
    /// the items, which is the list's old slot.
    pub fn begin(values: &mut ValuesContext, seq_ptr: i32, init_ptr: i32) -> (f: TableFold)
        requires
            old(values)@.wf(),
            holds_list(old(values)@, seq_ptr),
        ensures
            final(values)@.wf(),
            final(values)@ == (ValuesModel {
                values: old(values)@.values.update(seq_ptr as int, None),
                tombstones: old(values)@.tombstones,
            }),
            f@ == (TableFoldModel {
                items: old(values)@.values[seq_ptr as int]->0->List_0,
                next: 0,
                val_ptr: seq_ptr,
                acc_ptr: init_ptr,
            }),
    {
        let seq = values.take(seq_ptr).unwrap();
        let val_ptr = values.new_ptr();
        assert(old(values)@.tombstones.push(seq_ptr).drop_last() =~= old(values)@.tombstones);
        match seq {
            Value::List(items) => {
                proof {
                    lemma_model_list_models(items@);
                }
                TableFold { items, next: 0, val_ptr, acc_ptr: init_ptr }
            },
            _ => {
                assert(false);
                TableFold { items: Vec::new(), next: 0, val_ptr, acc_ptr: init_ptr }
            },
        }
    }

    /// Puts the next item in its slot and returns the arguments of its call:
    /// the item's slot and the accumulator's pointer. `None` where every item
    /// has been folded.
    pub fn next_call(&mut self, values: &mut ValuesContext) -> (r: Option<(i32, i32)>)
        requires
            old(values)@.wf(),
            old(values)@.valid(old(self)@.val_ptr),
            old(self)@.next <= old(self)@.items.len(),
        ensures
            final(self)@ == old(self)@,
            old(self)@.next < old(self)@.items.len() ==> r == Some((old(self)@.val_ptr, old(self)@.acc_ptr))
                && final(values)@ == (ValuesModel {
                values: old(values)@.values.update(
                    old(self)@.val_ptr as int,
                    Some(old(self)@.items[old(self)@.next as int]),
                ),
                tombstones: old(values)@.tombstones,
            }),
            old(self)@.next == old(self)@.items.len() ==> r is None && final(values)@ == old(values)@,
            final(values)@.wf(),
    {
        if self.next < self.items.len() {
            let item = self.items[self.next].clone();
            assert(models(self.items@)[self.next as int] == self.items@[self.next as int]@);
            values.set(self.val_ptr, item);
            Some((self.val_ptr, self.acc_ptr))
        } else {
            None
        }
    }

    /// Takes the result of a call: frees the old accumulator's slot and makes
    /// `result_ptr` the accumulator.
    pub fn returned(&mut self, values: &mut ValuesContext, result_ptr: i32)
        requires
            old(values)@.wf(),
            old(values)@.valid(old(self)@.acc_ptr),
            old(self)@.next < old(self)@.items.len(),
        ensures
            final(values)@.wf(),
            final(values)@ == old(values)@.after_drop(old(self)@.acc_ptr),
            final(self)@ == (TableFoldModel { next: old(self)@.next + 1, acc_ptr: result_ptr, ..old(self)@ }),
    {
        let n = self.items.len();
        values.drop(self.acc_ptr);
        self.acc_ptr = result_ptr;
        self.next = self.next + 1;
    }

    /// Ends the fold: frees the items' slot and returns the accumulator's
    /// pointer.
    pub fn finish(self, values: &mut ValuesContext) -> (acc_ptr: i32)
        requires
            old(values)@.wf(),
            old(values)@.valid(self@.val_ptr),
        ensures
            final(values)@.wf(),
            final(values)@ == old(values)@.after_drop(self@.val_ptr),
            acc_ptr == self@.acc_ptr,
    {
        values.drop(self.val_ptr);
        self.acc_ptr
    }
}

/// The state of a fold over a serialized sequence in memory.
pub ghost struct MemoryFoldModel {
    /// The offsets and lengths of the sequence's items.
    pub items: Seq<(u32, u32)>,
    /// The number of items already folded.
    pub next: nat,
    /// The offset and length of the accumulator.
    pub acc: (i32, i32),
    /// The result of the last call, `(0, 0, 0)` before the first.
    pub last: FuncResult,
}

/// A fold over a serialized sequence in memory. Each call gets the offset and
/// length of an item and of the accumulator, and returns an error code and the
/// offset and length of the new accumulator.
#[derive(Debug)]
pub struct MemoryFold {
    items: Vec<Ptr>,
    next: usize,
    acc: (i32, i32),
    last: FuncResult,
}

impl View for MemoryFold {
    type V = MemoryFoldModel;

    closed spec fn view(&self) -> MemoryFoldModel {
        MemoryFoldModel {
            items: self.items@.map_values(|p: Ptr| (p.offset, p.len)),
            next: self.next as nat,
            acc: self.acc,
            last: self.last,
        }
    }
}

impl MemoryFold {
    /// Starts a fold over the serialized sequence `seq_data`, with the
    /// accumulator at `init_ptr` of length `init_len`; `None` where
    /// `seq_data` does not read as a sequence.
    pub fn begin(seq_data: &[u8], init_ptr: i32, init_len: i32) -> (r: Option<MemoryFold>)
        requires
            seq_data@.len() <= isize::MAX,
        ensures
            r is Some == seq_ptrs(seq_data@) is Done,
            r matches Some(f) ==> {
                &&& f@.items.len() == seq_ptrs(seq_data@)->Done_0.len()
                &&& forall|i: int|
                    0 <= i < f@.items.len() ==> #[trigger] f@.items[i] == (
                        seq_ptrs(seq_data@)->Done_0[i].0 as u32,
                        seq_ptrs(seq_data@)->Done_0[i].1 as u32,
                    )
                &&& f@.next == 0
                &&& f@.acc == (init_ptr, init_len)
                &&& f@.last == (0i32, 0i32, 0i32)
            },
    {
        let items = match try_deserialize_clarity_seq_to_ptrs(seq_data) {
            Some(Ok(items)) => items,
            _ => return None,
        };
        let f = MemoryFold { items, next: 0, acc: (init_ptr, init_len), last: (0, 0, 0) };
        assert forall|i: int| 0 <= i < f@.items.len() implies #[trigger] f@.items[i] == (
            seq_ptrs(seq_data@)->Done_0[i].0 as u32,
            seq_ptrs(seq_data@)->Done_0[i].1 as u32,
        ) by {
            assert(f@.items[i] == (f.items@[i].offset, f.items@[i].len));
        }
        Some(f)
    }

    /// The arguments of the next call: the offset and length of the next item
    /// and of the accumulator. `None` where every item has been folded.
    pub fn next_call(&self) -> (r: Option<(i32, i32, i32, i32)>)
        requires
            self@.next <= self@.items.len(),
        ensures
            self@.next < self@.items.len() ==> r == Some((
                self@.items[self@.next as int].0 as i32,
                self@.items[self@.next as int].1 as i32,
                self@.acc.0,
                self@.acc.1,
            )),
            self@.next == self@.items.len() ==> r is None,
    {
        if self.next < self.items.len() {
            let p = self.items[self.next];
            Some((p.offset_i32(), p.len_i32(), self.acc.0, self.acc.1))
        } else {
            None
        }
    }

    /// Takes the result of a call: its offset and length become the
    /// accumulator.
    pub fn returned(&mut self, result: FuncResult)
        requires
            old(self)@.next < old(self)@.items.len(),
        ensures
            final(self)@ == (MemoryFoldModel {
                next: old(self)@.next + 1,
                acc: (result.1, result.2),
                last: result,
                ..old(self)@
            }),
    {
        let n = self.items.len();
        self.acc = (result.1, result.2);
        self.last = result;
        self.next = self.next + 1;
    }

    /// The result of the fold: no error, and the offset and length the last
    /// call returned, which are zero where there were no items.
    pub fn finish(&self) -> (r: FuncResult)
        ensures
            r == (0i32, self@.last.1, self@.last.2),
    {
        (0, self.last.1, self.last.2)
    }
}

/// The number of bytes of the UTF-8 character that starts with `b`: one for
/// an ASCII byte, and as many as the leading ones say for a lead byte. A
/// continuation byte out of place counts as a character of its own.
pub open spec fn utf8_char_len(b: u8) -> nat {
    if b < 0x80 {
        1
    } else if b >= 0xF0 {
        4
    } else if b >= 0xE0 {
        3
    } else if b >= 0xC0 {
        2
    } else {
        1
    }
}

/// The characters of the UTF-8 bytes from `i` on, each as its bytes; a
/// character cut short by the end keeps the bytes that are there.
pub open spec fn utf8_chunks_from(bytes: Seq<u8>, i: nat) -> Seq<Seq<u8>>
    decreases bytes.len() - i,
{
    if i >= bytes.len() {
        Seq::empty()
    } else {
        let end = if i + utf8_char_len(bytes[i as int]) <= bytes.len() {
            i + utf8_char_len(bytes[i as int])
        } else {
            bytes.len()
        };
        seq![bytes.subrange(i as int, end as int)] + utf8_chunks_from(bytes, end)
    }
}

/// The first byte of a character's UTF-8 encoding gives that encoding's
/// length, and the encoding is one to four bytes long.
pub proof fn lemma_encoded_char_len(c: char)
    ensures
        1 <= vstd::utf8::encode_utf8(seq![c]).len() <= 4,
        utf8_char_len(vstd::utf8::encode_utf8(seq![c])[0]) == vstd::utf8::encode_utf8(seq![c]).len(),
{
    let cs = seq![c];
    vstd::utf8::encode_utf8_first_scalar(cs);
    assert(cs.drop_first() =~= Seq::<char>::empty());
    assert(vstd::utf8::encode_utf8(Seq::<char>::empty()) =~= Seq::<u8>::empty());
    assert(vstd::utf8::encode_utf8(cs) =~= vstd::utf8::encode_scalar(c as u32) + vstd::utf8::encode_utf8(cs.drop_first()));
    assert(vstd::utf8::encode_utf8(cs) =~= vstd::utf8::encode_scalar(c as u32));
}

/// The UTF-8 encoding of characters is that of the first followed by that of the rest.
pub proof fn lemma_encode_cons(s: Seq<char>)
    requires
        s.len() > 0,
    ensures
        vstd::utf8::encode_utf8(s) == vstd::utf8::encode_utf8(seq![s[0]]) + vstd::utf8::encode_utf8(s.drop_first()),
{
    let cs = seq![s[0]];
    assert(cs.drop_first() =~= Seq::<char>::empty());
    assert(vstd::utf8::encode_utf8(Seq::<char>::empty()) =~= Seq::<u8>::empty());
    assert(vstd::utf8::encode_utf8(cs) =~= vstd::utf8::encode_scalar(s[0] as u32) + vstd::utf8::encode_utf8(cs.drop_first()));
    assert(vstd::utf8::encode_utf8(cs) =~= vstd::utf8::encode_scalar(s[0] as u32));
}

proof fn lemma_chunks_of_encoding(pre: Seq<u8>, s: Seq<char>)
    ensures
        utf8_chunks_from(pre + vstd::utf8::encode_utf8(s), pre.len()) == s.map_values(
            |c: char| vstd::utf8::encode_utf8(seq![c]),
        ),
    decreases s.len(),
{
    let enc = |c: char| vstd::utf8::encode_utf8(seq![c]);
    let bytes = pre + vstd::utf8::encode_utf8(s);
    if s.len() == 0 {
        assert(s.map_values(enc) =~= Seq::<Seq<u8>>::empty());
    } else {
        let first = vstd::utf8::encode_utf8(seq![s[0]]);
        let rest = s.drop_first();
        lemma_encode_cons(s);
        lemma_encoded_char_len(s[0]);
        let pre2 = pre + first;
        assert(bytes =~= pre2 + vstd::utf8::encode_utf8(rest));
        assert(bytes[pre.len() as int] == first[0]);
        assert(bytes.subrange(pre.len() as int, pre2.len() as int) =~= first);
        lemma_chunks_of_encoding(pre2, rest);
        assert(s.map_values(enc) =~= seq![first] + rest.map_values(enc));
    }
}

/// The chunks a fold goes through for UTF-8 bytes are exactly their
/// characters: for the encoding of any characters, one chunk per character,
/// each that character's own encoding.
pub proof fn law_utf8_chunks_are_characters(s: Seq<char>)
    ensures
        utf8_chunks_from(vstd::utf8::encode_utf8(s), 0) == s.map_values(|c: char| vstd::utf8::encode_utf8(seq![c])),
        utf8_chunks_from(vstd::utf8::encode_utf8(s), 0).len() == s.len(),
{
    lemma_chunks_of_encoding(Seq::empty(), s);
    assert(Seq::<u8>::empty() + vstd::utf8::encode_utf8(s) =~= vstd::utf8::encode_utf8(s));
}

/// The items a fold over a sequence value goes through.
#[derive(Debug)]
pub enum FoldItems {
    /// The items of a list.
    Values(Vec<Value>),
    /// The bytes of a buffer or an ASCII string.
    Bytes(Vec<u8>),
    /// The characters of a UTF-8 string, each as its bytes.
    Chars(Vec<Vec<u8>>),
}

/// The bytes of each character of a UTF-8 string.
fn utf8_chunks(bytes: &[u8]) -> (r: Vec<Vec<u8>>)
    ensures
        r@.map_values(|c: Vec<u8>| c@) == utf8_chunks_from(bytes@, 0),
{
    let mut out: Vec<Vec<u8>> = Vec::new();
    let mut i: usize = 0;
    let n = bytes.len();
    while i < n
        invariant
            0 <= i <= n,
            n == bytes@.len(),
            out@.map_values(|c: Vec<u8>| c@) + utf8_chunks_from(bytes@, i as nat) == utf8_chunks_from(bytes@, 0),
        decreases n - i,
    {
        let b = bytes[i];
        let len: usize = if b < 0x80 {
            1
        } else if b >= 0xF0 {
            4
        } else if b >= 0xE0 {
            3
        } else if b >= 0xC0 {
            2
        } else {
            1
        };
        let end = if len <= n - i {
            i + len
        } else {
            n
        };
        let chunk = slice_to_vec(&bytes[i..end]);
        let ghost before = out@.map_values(|c: Vec<u8>| c@);
        out.push(chunk);
        proof {
            assert(chunk@ == bytes@.subrange(i as int, end as int));
            assert(out@.map_values(|c: Vec<u8>| c@) =~= before.push(bytes@.subrange(i as int, end as int)));
            assert(utf8_chunks_from(bytes@, i as nat) == seq![bytes@.subrange(i as int, end as int)]
                + utf8_chunks_from(bytes@, end as nat));
            assert(before.push(bytes@.subrange(i as int, end as int)) + utf8_chunks_from(bytes@, end as nat)
                =~= before + (seq![bytes@.subrange(i as int, end as int)] + utf8_chunks_from(bytes@, end as nat)));
        }
        i = end;
    }
    assert(out@.map_values(|c: Vec<u8>| c@) + utf8_chunks_from(bytes@, n as nat) =~= out@.map_values(
        |c: Vec<u8>| c@,
    ));
    out
}

/// The items a fold over `seq` goes through: a list's items, a buffer's or an
/// ASCII string's bytes, a UTF-8 string's characters. `None` where `seq` is
/// not a sequence.
pub fn fold_items(seq: &Value) -> (r: Option<FoldItems>)
    ensures
        match seq@ {
            ValueModel::List(items) => r matches Some(FoldItems::Values(v)) && models(v@) == items,
            ValueModel::Buffer(b) => r matches Some(FoldItems::Bytes(v)) && v@ == b,
            ValueModel::AsciiString(b) => r matches Some(FoldItems::Bytes(v)) && v@ == b,
            ValueModel::Utf8String(b) => r matches Some(FoldItems::Chars(c)) && c@.map_values(|x: Vec<u8>| x@)
                == utf8_chunks_from(b, 0),
            _ => r is None,
        },
{
    match seq {
        Value::List(items) => {
            let mut out: Vec<Value> = Vec::new();
            let mut i: usize = 0;
            while i < items.len()
                invariant
                    0 <= i <= items.len(),
                    models(out@) == models(items@).subrange(0, i as int),
                decreases items.len() - i,
            {
                let c = items[i].clone();
                let ghost before = out@;
                out.push(c);
                assert(models(out@) =~= models(items@).subrange(0, i + 1)) by {
                    assert(models(out@) =~= models(before).push(c@));
                }
                i = i + 1;
            }
            proof {
                lemma_model_list_models(items@);
                assert(models(items@).subrange(0, items@.len() as int) =~= models(items@));
            }
            Some(FoldItems::Values(out))
        },
        Value::Buffer(b) => Some(FoldItems::Bytes(slice_to_vec(b.as_slice()))),
        Value::AsciiString(b) => Some(FoldItems::Bytes(slice_to_vec(b.as_slice()))),
        Value::Utf8String(b) => Some(FoldItems::Chars(utf8_chunks(b.as_slice()))),
        _ => None,
    }
}

/// The state of a fold over items whose calls are made elsewhere.
pub ghost struct ItemFoldModel<I, A> {
    /// The items not yet folded, in order.
    pub remaining: Seq<I>,
    /// The accumulator, while no call is under way.
    pub acc: Option<A>,
}

/// A fold over a sequence of items with an accumulator: each call gets the
/// next item and the accumulator, and what it returns becomes the
/// accumulator; the result is the last accumulator, or the initial one where
/// there are no items.
pub struct ItemFold<I, A> {
    items: Vec<I>,
    acc: Option<A>,
}

impl<I, A> View for ItemFold<I, A> {
    type V = ItemFoldModel<I, A>;

    closed spec fn view(&self) -> ItemFoldModel<I, A> {
        ItemFoldModel { remaining: self.items@, acc: self.acc }
    }
}

impl<I, A> ItemFoldModel<I, A> {
    /// A fold over `items` from the accumulator `init`.
    pub open spec fn start(items: Seq<I>, init: A) -> Self {
        ItemFoldModel { remaining: items, acc: Some(init) }
    }

    /// The arguments of the next call: the next item and the accumulator.
    pub open spec fn call_args(self) -> (I, A) {
        (self.remaining[0], self.acc->0)
    }

    /// The fold once the next call's arguments are handed out.
    pub open spec fn called(self) -> Self {
        ItemFoldModel { remaining: self.remaining.drop_first(), acc: None }
    }

    /// The fold once a call returned `result`.
    pub open spec fn after_return(self, result: A) -> Self {
        ItemFoldModel { remaining: self.remaining, acc: Some(result) }
    }
}

/// The fold after each of the calls, in turn, returned the next of `results`,
/// until the items or the results run out.
pub open spec fn fold_through<I, A>(m: ItemFoldModel<I, A>, results: Seq<A>) -> ItemFoldModel<I, A>
    decreases results.len(),
{
    if results.len() == 0 || m.remaining.len() == 0 {
        m
    } else {
        fold_through(m.called().after_return(results[0]), results.drop_first())
    }
}

proof fn lemma_fold_through<I, A>(items: Seq<I>, init: A, results: Seq<A>, i: int)
    requires
        0 <= i <= results.len() <= items.len(),
    ensures
        fold_through(ItemFoldModel::start(items, init), results.take(i)) == (ItemFoldModel::<I, A> {
            remaining: items.skip(i),
            acc: Some(if i == 0 { init } else { results[i - 1] }),
        }),
    decreases i,
{
    let m = ItemFoldModel::start(items, init);
    if i == 0 {
        assert(results.take(0).len() == 0);
        assert(items.skip(0) =~= items);
    } else {
        let rest = results.drop_first();
        assert(results.take(i).drop_first() =~= rest.take(i - 1));
        assert(results.take(i)[0] == results[0]);
        lemma_fold_through(items.drop_first(), results[0], rest, i - 1);
        assert(m.called().after_return(results[0]) == ItemFoldModel::start(items.drop_first(), results[0]));
        assert(items.drop_first().skip(i - 1) =~= items.skip(i));
        if i > 1 {
            assert(rest[i - 2] == results[i - 1]);
        }
    }
}

/// Folding threads the accumulator through the calls: where the calls return
/// `results` in turn, the call made for item `i` gets that item and the
/// initial value (for the first) or what the call before returned, and the
/// fold ends with every item folded and the last result (or the initial value
/// where there are no items) as its value.
pub proof fn law_item_fold_threads_results<I, A>(items: Seq<I>, init: A, results: Seq<A>)
    requires
        results.len() == items.len(),
    ensures
        forall|i: int|
            0 <= i < items.len() ==> (#[trigger] fold_through(ItemFoldModel::start(items, init), results.take(i))).call_args()
                == (items[i], if i == 0 { init } else { results[i - 1] }),
        fold_through(ItemFoldModel::start(items, init), results) == (ItemFoldModel::<I, A> {
            remaining: Seq::empty(),
            acc: Some(if items.len() == 0 { init } else { results.last() }),
        }),
{
    assert forall|i: int| 0 <= i < items.len() implies (#[trigger] fold_through(
        ItemFoldModel::start(items, init),
        results.take(i),
    )).call_args() == (items[i], if i == 0 { init } else { results[i - 1] }) by {
        lemma_fold_through(items, init, results, i);
    }
    lemma_fold_through(items, init, results, results.len() as int);
    assert(results.take(results.len() as int) =~= results);
    assert(items.skip(items.len() as int) =~= Seq::<I>::empty());
}

impl<I, A> ItemFold<I, A> {
    /// Starts a fold over `items` from the accumulator `init`.
    pub fn begin(items: Vec<I>, init: A) -> (f: Self)
        ensures
            f@ == ItemFoldModel::start(items@, init),
    {
        ItemFold { items, acc: Some(init) }
    }

    /// The arguments of the next call, the next item and the accumulator,
    /// which the fold gives up until the call returns; `None` where every item
    /// has been folded.
    pub fn next_call(&mut self) -> (r: Option<(I, A)>)
        requires
            old(self)@.acc is Some,
        ensures
            old(self)@.remaining.len() > 0 ==> r == Some(old(self)@.call_args()),
            old(self)@.remaining.len() > 0 ==> final(self)@ == old(self)@.called(),
            old(self)@.remaining.len() == 0 ==> r is None && final(self)@ == old(self)@,
    {
        if self.items.len() == 0 {
            return None;
        }
        let item = self.items.remove(0);
        let acc = self.acc.take().unwrap();
        assert(self.items@ =~= old(self)@.remaining.drop_first());
        Some((item, acc))
    }

    /// Takes what a call returned as the new accumulator.
    pub fn returned(&mut self, result: A)
        requires
            old(self)@.acc is None,
        ensures
            final(self)@ == old(self)@.after_return(result),
    {
        self.acc = Some(result);
    }

    /// The result of the fold: the accumulator.
    pub fn finish(self) -> (r: A)
        requires
            self@.acc is Some,
        ensures
            r == self@.acc->0,
    {
        self.acc.unwrap()
    }
}

} // verus!
