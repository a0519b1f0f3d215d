//! The object heap of runtime values: objects addressed by handles, interned
//! texts and record shapes, and a transactional copy of object graphs from
//! one heap into another.

use vstd::prelude::*;
use crate::value::{BuiltinAtom, NativeFunction, same_str};

verus! {

/// Texts of at most this many UTF-8 bytes are interned rather than allocated.
pub const SHORT_TEXT_BYTES: usize = 32;

/// The identity of one heap.
#[derive(Clone, Copy, Debug, PartialEq, Eq, Structural, Hash)]
pub struct HeapId(pub u32);

/// The address of an object: its heap and its slot there.
#[derive(Clone, Copy, Debug, PartialEq, Eq, Structural, Hash)]
pub struct Handle {
    pub heap: HeapId,
    pub slot: u32,
}

/// The address of an interned text.
#[derive(Clone, Copy, Debug, PartialEq, Eq, Structural, Hash)]
pub struct InternId {
    pub heap: HeapId,
    pub slot: u32,
}

/// The address of an interned record shape.
#[derive(Clone, Copy, Debug, PartialEq, Eq, Structural, Hash)]
pub struct ShapeId {
    pub heap: HeapId,
    pub slot: u32,
}

/// A runtime value: an immediate, or a reference into a heap.
#[derive(Clone, Copy, Debug, PartialEq, Eq, Structural)]
pub enum RuntimeValue {
    Int(i64),
    /// A float, held as its IEEE-754 bit pattern: the heap only carries it.
    Float(u64),
    BuiltinAtom(BuiltinAtom),
    Atom(InternId),
    ShortString(InternId),
    String(Handle),
    Bytes(Handle),
    Array(Handle),
    Tuple(Handle),
    Dict(Handle),
    Func(Handle),
}

/// Code that a closure runs. A copy into another heap gives the code a link
/// table of its own.
pub trait Relink: Sized {
    fn relink(&self) -> Self;
}

/// What a closure runs: compiled code `B`, or a native function with host
/// callback `C`.
#[derive(Clone, Debug)]
pub enum RuntimePrototype<B, C> {
    Bytecode(B),
    Native(NativeFunction<C>),
}

impl<B: Relink, C: Copy> Relink for RuntimePrototype<B, C> {
    /// Compiled code gets a link table of its own; a native function stays
    /// as it is.
    fn relink(&self) -> (r: Self)
        ensures
            self matches RuntimePrototype::Native(f) ==> r == RuntimePrototype::<B, C>::Native(*f),
            self is Bytecode ==> r is Bytecode,
    {
        match self {
            RuntimePrototype::Bytecode(function) => RuntimePrototype::Bytecode(function.relink()),
            RuntimePrototype::Native(function) => RuntimePrototype::Native(*function),
        }
    }
}

/// A heap object. `Reserved` is a slot allocated before its contents, so
/// that cyclic structures can be built; `P` is what a closure runs.
#[derive(Debug)]
pub enum Object<P> {
    Reserved,
    String(String),
    Bytes(Vec<u8>),
    Array(Vec<RuntimeValue>),
    Tuple(Vec<RuntimeValue>),
    Dict { shape: ShapeId, values: Vec<RuntimeValue> },
    Closure { prototype: P, upvalues: Vec<RuntimeValue> },
}

/// What an object holds, as mathematical values.
pub enum ObjectView<P> {
    Reserved,
    String(Seq<char>),
    Bytes(Seq<u8>),
    Array(Seq<RuntimeValue>),
    Tuple(Seq<RuntimeValue>),
    Dict(ShapeId, Seq<RuntimeValue>),
    Closure(P, Seq<RuntimeValue>),
}

impl<P> View for Object<P> {
    type V = ObjectView<P>;

    open spec fn view(&self) -> ObjectView<P> {
        match self {
            Object::Reserved => ObjectView::Reserved,
            Object::String(s) => ObjectView::String(s@),
            Object::Bytes(b) => ObjectView::Bytes(b@),
            Object::Array(v) => ObjectView::Array(v@),
            Object::Tuple(v) => ObjectView::Tuple(v@),
            Object::Dict { shape, values } => ObjectView::Dict(*shape, values@),
            Object::Closure { prototype, upvalues } => ObjectView::Closure(*prototype, upvalues@),
        }
    }
}

/// A failed heap access, with its reason.
#[derive(Debug, PartialEq, Eq)]
pub struct HeapError(pub &'static str);

impl HeapError {
    pub fn message(&self) -> (m: &'static str)
        ensures
            m@ == self.0@,
    {
        self.0
    }
}

/// Interned texts, each stored once, addressed by slot.
#[derive(Debug)]
struct TextTable {
    values: Vec<String>,
}

pub open spec fn strings_view(values: Seq<String>) -> Seq<Seq<char>> {
    values.map_values(|s: String| s@)
}

impl TextTable {
    spec fn texts(&self) -> Seq<Seq<char>> {
        strings_view(self.values@)
    }

    spec fn wf(&self) -> bool {
        &&& self.texts().no_duplicates()
        &&& self.values@.len() <= u32::MAX
    }

    fn new() -> (t: TextTable)
        ensures
            t.wf(),
            t.texts() == Seq::<Seq<char>>::empty(),
    {
        TextTable { values: Vec::new() }
    }

    fn find(&self, text: &str) -> (r: Option<u32>)
        requires
            self.wf(),
        ensures
            r matches Some(slot) ==> slot < self.texts().len() && self.texts()[slot as int] == text@,
            r is None ==> !self.texts().contains(text@),
    {
        let mut i: usize = 0;
        while i < self.values.len()
            invariant
                self.wf(),
                i <= self.values@.len(),
                forall|j: int| 0 <= j < i ==> self.texts()[j] != text@,
            decreases self.values@.len() - i,
        {
            if same_str(self.values[i].as_str(), text) {
                return Some(i as u32);
            }
            i = i + 1;
        }
        None
    }

    fn resolve(&self, slot: u32) -> (r: Option<&str>)
        ensures
            r is Some <==> slot < self.texts().len(),
            r matches Some(s) ==> s@ == self.texts()[slot as int],
    {
        if (slot as usize) < self.values.len() {
            Some(self.values[slot as usize].as_str())
        } else {
            None
        }
    }

    fn insert(&mut self, text: &str) -> (slot: u32)
        requires
            old(self).wf(),
            old(self).texts().contains(text@) || old(self).texts().len() < u32::MAX,
        ensures
            final(self).wf(),
            old(self).texts().contains(text@) ==> final(self).texts() == old(self).texts(),
            !old(self).texts().contains(text@) ==> final(self).texts() == old(self).texts().push(text@)
                && slot == old(self).texts().len(),
            slot < final(self).texts().len(),
            final(self).texts()[slot as int] == text@,
    {
        if let Some(slot) = self.find(text) {
            return slot;
        }
        let slot = self.values.len() as u32;
        self.values.push(text.to_owned());
        proof {
            assert(self.texts() =~= old(self).texts().push(text@));
        }
        slot
    }
}

/// A heap as mathematical values.
pub struct HeapModel<P> {
    pub id: HeapId,
    pub objects: Seq<ObjectView<P>>,
    pub texts: Seq<Seq<char>>,
    pub shapes: Seq<Seq<InternId>>,
}

pub open spec fn vecs_view(shapes: Seq<Vec<InternId>>) -> Seq<Seq<InternId>> {
    shapes.map_values(|s: Vec<InternId>| s@)
}

pub open spec fn objects_view<P>(objects: Seq<Object<P>>) -> Seq<ObjectView<P>> {
    objects.map_values(|o: Object<P>| o@)
}

/// Objects, interned texts and interned shapes of one heap.
#[derive(Debug)]
pub struct Heap<P> {
    id: HeapId,
    objects: Vec<Object<P>>,
    text: TextTable,
    shapes: Vec<Vec<InternId>>,
}

impl<P> View for Heap<P> {
    type V = HeapModel<P>;

    closed spec fn view(&self) -> HeapModel<P> {
        HeapModel {
            id: self.id,
            objects: objects_view(self.objects@),
            texts: self.text.texts(),
            shapes: vecs_view(self.shapes@),
        }
    }
}

/// A heap model whose texts and shapes are each stored once and whose slots
/// fit their `u32` addresses.
pub open spec fn heap_wf<P>(h: HeapModel<P>) -> bool {
    &&& h.texts.no_duplicates()
    &&& h.shapes.no_duplicates()
    &&& h.objects.len() <= u32::MAX
    &&& h.texts.len() <= u32::MAX
    &&& h.shapes.len() <= u32::MAX
}

/// `fields` equal element by element.
fn same_fields(a: &Vec<InternId>, b: &Vec<InternId>) -> (r: bool)
    ensures
        r == (a@ == b@),
{
    if a.len() != b.len() {
        return false;
    }
    let mut i: usize = 0;
    while i < a.len()
        invariant
            a@.len() == b@.len(),
            i <= a@.len(),
            forall|j: int| 0 <= j < i ==> a@[j] == b@[j],
        decreases a@.len() - i,
    {
        if a[i] != b[i] {
            return false;
        }
        i = i + 1;
    }
    proof {
        assert(a@ =~= b@);
    }
    true
}

impl<P> Heap<P> {
    pub closed spec fn wf(&self) -> bool {
        &&& self.text.wf()
        &&& heap_wf(self@)
    }

    pub fn new(id: u32) -> (h: Self)
        ensures
            h.wf(),
            h@.id == HeapId(id),
            h@.objects == Seq::<ObjectView<P>>::empty(),
            h@.texts == Seq::<Seq<char>>::empty(),
            h@.shapes == Seq::<Seq<InternId>>::empty(),
    {
        let h = Heap { id: HeapId(id), objects: Vec::new(), text: TextTable::new(), shapes: Vec::new() };
        proof {
            assert(h@.objects =~= Seq::<ObjectView<P>>::empty());
            assert(h@.shapes =~= Seq::<Seq<InternId>>::empty());
        }
        h
    }

    pub fn id(&self) -> (id: HeapId)
        ensures
            id == self@.id,
    {
        self.id
    }

    /// The numbers of objects, interned texts and interned shapes.
    pub fn counts(&self) -> (c: (usize, usize, usize))
        ensures
            c.0 == self@.objects.len(),
            c.1 == self@.texts.len(),
            c.2 == self@.shapes.len(),
    {
        (self.objects.len(), self.text.values.len(), self.shapes.len())
    }

    /// Stores `object` in a new slot.
    pub fn allocate(&mut self, object: Object<P>) -> (handle: Handle)
        requires
            old(self).wf(),
            old(self)@.objects.len() < u32::MAX,
        ensures
            final(self).wf(),
            final(self)@ == (HeapModel { objects: old(self)@.objects.push(object@), ..old(self)@ }),
            handle == (Handle { heap: old(self)@.id, slot: old(self)@.objects.len() as u32 }),
    {
        let handle = Handle { heap: self.id, slot: self.objects.len() as u32 };
        self.objects.push(object);
        proof {
            assert(objects_view(self.objects@) =~= objects_view(old(self).objects@).push(object@));
        }
        handle
    }

    /// A new slot whose contents come later, through `initialize`.
    pub fn reserve(&mut self) -> (handle: Handle)
        requires
            old(self).wf(),
            old(self)@.objects.len() < u32::MAX,
        ensures
            final(self).wf(),
            final(self)@ == (HeapModel {
                objects: old(self)@.objects.push(ObjectView::<P>::Reserved),
                ..old(self)@
            }),
            handle == (Handle { heap: old(self)@.id, slot: old(self)@.objects.len() as u32 }),
    {
        self.allocate(Object::Reserved)
    }

    /// Fills a reserved slot.
    pub fn initialize(&mut self, handle: Handle, object: Object<P>) -> (r: Result<(), HeapError>)
        requires
            old(self).wf(),
        ensures
            final(self).wf(),
            handle.heap != old(self)@.id ==> r == Err::<(), HeapError>(
                HeapError("object handle belongs to another heap"),
            ),
            handle.heap == old(self)@.id && handle.slot >= old(self)@.objects.len() ==> r == Err::<
                (),
                HeapError,
            >(HeapError("object handle is out of bounds")),
            handle.heap == old(self)@.id && handle.slot < old(self)@.objects.len() && !(old(
                self,
            )@.objects[handle.slot as int] is Reserved) ==> r == Err::<(), HeapError>(
                HeapError("heap slot is already initialized"),
            ),
            r is Err ==> final(self)@ == old(self)@,
            r is Ok <==> (handle.heap == old(self)@.id && handle.slot < old(self)@.objects.len()
                && old(self)@.objects[handle.slot as int] is Reserved),
            r is Ok ==> final(self)@ == (HeapModel {
                objects: old(self)@.objects.update(handle.slot as int, object@),
                ..old(self)@
            }),
    {
        if handle.heap != self.id {
            return Err(HeapError("object handle belongs to another heap"));
        }
        if handle.slot as usize >= self.objects.len() {
            return Err(HeapError("object handle is out of bounds"));
        }
        if !matches!(self.objects[handle.slot as usize], Object::Reserved) {
            return Err(HeapError("heap slot is already initialized"));
        }
        self.objects.set(handle.slot as usize, object);
        proof {
            assert(objects_view(self.objects@) =~= objects_view(old(self).objects@).update(
                handle.slot as int,
                object@,
            ));
        }
        Ok(())
    }

    /// The object a handle addresses.
    pub fn object(&self, handle: Handle) -> (r: Result<&Object<P>, HeapError>)
        ensures
            handle.heap != self@.id ==> r is Err && r->Err_0 == HeapError(
                "object handle belongs to another heap",
            ),
            handle.heap == self@.id && handle.slot >= self@.objects.len() ==> r is Err && r->Err_0
                == HeapError("object handle is out of bounds"),
            r is Ok <==> handle.heap == self@.id && handle.slot < self@.objects.len(),
            r matches Ok(o) ==> o@ == self@.objects[handle.slot as int],
    {
        if handle.heap != self.id {
            return Err(HeapError("object handle belongs to another heap"));
        }
        if handle.slot as usize >= self.objects.len() {
            return Err(HeapError("object handle is out of bounds"));
        }
        Ok(&self.objects[handle.slot as usize])
    }

    /// The intern ID of `text`, interning it first if it is new.
    pub fn intern(&mut self, text: &str) -> (id: InternId)
        requires
            old(self).wf(),
            old(self)@.texts.contains(text@) || old(self)@.texts.len() < u32::MAX,
        ensures
            final(self).wf(),
            id.heap == old(self)@.id,
            old(self)@.texts.contains(text@) ==> final(self)@ == old(self)@,
            !old(self)@.texts.contains(text@) ==> final(self)@ == (HeapModel {
                texts: old(self)@.texts.push(text@),
                ..old(self)@
            }) && id.slot == old(self)@.texts.len(),
            id.slot < final(self)@.texts.len(),
            final(self)@.texts[id.slot as int] == text@,
    {
        let slot = self.text.insert(text);
        InternId { heap: self.id, slot }
    }

    /// The intern ID of `text`, if it is interned here.
    pub fn find_text(&self, text: &str) -> (r: Option<InternId>)
        requires
            self.wf(),
        ensures
            r matches Some(id) ==> id.heap == self@.id && id.slot < self@.texts.len()
                && self@.texts[id.slot as int] == text@,
            r is None ==> !self@.texts.contains(text@),
    {
        match self.text.find(text) {
            Some(slot) => Some(InternId { heap: self.id, slot }),
            None => None,
        }
    }

    /// The text an intern ID stands for.
    pub fn resolve_text(&self, id: InternId) -> (r: Result<&str, HeapError>)
        ensures
            id.heap != self@.id ==> r is Err && r->Err_0 == HeapError(
                "intern ID belongs to another heap",
            ),
            id.heap == self@.id && id.slot >= self@.texts.len() ==> r is Err && r->Err_0
                == HeapError("intern ID is out of bounds"),
            r is Ok <==> id.heap == self@.id && id.slot < self@.texts.len(),
            r matches Ok(s) ==> s@ == self@.texts[id.slot as int],
    {
        if id.heap != self.id {
            return Err(HeapError("intern ID belongs to another heap"));
        }
        match self.text.resolve(id.slot) {
            Some(text) => Ok(text),
            None => Err(HeapError("intern ID is out of bounds")),
        }
    }

    /// A string value: a short text is interned, in `background` when it is
    /// already there, else here; a longer one is allocated.
    pub fn string(&mut self, background: Option<&Heap<P>>, text: &str) -> (v: RuntimeValue)
        requires
            old(self).wf(),
            background matches Some(b) ==> b.wf(),
            old(self)@.texts.len() < u32::MAX,
            old(self)@.objects.len() < u32::MAX,
        ensures
            final(self).wf(),
            text.len() <= SHORT_TEXT_BYTES ==> match v {
                RuntimeValue::ShortString(id) => (background matches Some(b) && b@.texts.contains(
                    text@,
                ) && id.heap == b@.id && b@.texts[id.slot as int] == text@ && final(self)@
                    == old(self)@) || ((background matches Some(b) ==> !b@.texts.contains(text@))
                    && id.heap == old(self)@.id && id.slot < final(self)@.texts.len()
                    && final(self)@.texts[id.slot as int] == text@ && final(self)@.objects
                    == old(self)@.objects && final(self)@.shapes == old(self)@.shapes
                    && final(self)@.texts.subrange(0, old(self)@.texts.len() as int)
                    == old(self)@.texts),
                _ => false,
            },
            text.len() > SHORT_TEXT_BYTES ==> v == RuntimeValue::String(
                Handle { heap: old(self)@.id, slot: old(self)@.objects.len() as u32 },
            ) && final(self)@ == (HeapModel {
                objects: old(self)@.objects.push(ObjectView::String(text@)),
                ..old(self)@
            }),
    {
        if text.len() <= SHORT_TEXT_BYTES {
            let found = match background {
                Some(heap) => heap.find_text(text),
                None => None,
            };
            match found {
                Some(id) => RuntimeValue::ShortString(id),
                None => {
                    let id = self.intern(text);
                    proof {
                        assert(final(self)@.texts.subrange(0, old(self)@.texts.len() as int)
                            =~= old(self)@.texts);
                    }
                    RuntimeValue::ShortString(id)
                },
            }
        } else {
            let owned = text.to_owned();
            let object: Object<P> = Object::String(owned);
            assert(object@ == ObjectView::<P>::String(text@));
            RuntimeValue::String(self.allocate(object))
        }
    }

    /// An atom value: a builtin atom where `text` names one, else the text
    /// interned in `background` when it is already there, else here.
    pub fn atom(&mut self, background: Option<&Heap<P>>, text: &str) -> (v: RuntimeValue)
        requires
            old(self).wf(),
            background matches Some(b) ==> b.wf(),
            old(self)@.texts.len() < u32::MAX,
        ensures
            final(self).wf(),
            final(self)@.objects == old(self)@.objects,
            final(self)@.shapes == old(self)@.shapes,
            final(self)@.texts.subrange(0, old(self)@.texts.len() as int) == old(self)@.texts,
            builtin_named(text@) matches Some(a) ==> v == RuntimeValue::BuiltinAtom(a)
                && final(self)@ == old(self)@,
            builtin_named(text@) is None ==> match v {
                RuntimeValue::Atom(id) => (background matches Some(b) && b@.texts.contains(text@)
                    && id.heap == b@.id && b@.texts[id.slot as int] == text@ && final(self)@
                    == old(self)@) || ((background matches Some(b) ==> !b@.texts.contains(text@))
                    && id.heap == old(self)@.id && id.slot < final(self)@.texts.len()
                    && final(self)@.texts[id.slot as int] == text@),
                _ => false,
            },
    {
        if let Some(builtin) = builtin_atom(text) {
            proof {
                assert(final(self)@.texts.subrange(0, old(self)@.texts.len() as int)
                    =~= old(self)@.texts);
            }
            return RuntimeValue::BuiltinAtom(builtin);
        }
        let found = match background {
            Some(heap) => heap.find_text(text),
            None => None,
        };
        let v = match found {
            Some(id) => RuntimeValue::Atom(id),
            None => RuntimeValue::Atom(self.intern(text)),
        };
        proof {
            assert(final(self)@.texts.subrange(0, old(self)@.texts.len() as int)
                =~= old(self)@.texts);
        }
        v
    }

    /// The slot of a shape equal to `fields`, if one is interned here.
    fn find_shape(&self, fields: &Vec<InternId>) -> (r: Option<u32>)
        requires
            self.wf(),
        ensures
            r matches Some(slot) ==> slot < self@.shapes.len() && self@.shapes[slot as int]
                == fields@,
            r is None ==> !self@.shapes.contains(fields@),
    {
        let mut i: usize = 0;
        while i < self.shapes.len()
            invariant
                self.wf(),
                i <= self.shapes@.len(),
                forall|j: int| 0 <= j < i ==> self@.shapes[j] != fields@,
            decreases self.shapes@.len() - i,
        {
            if same_fields(&self.shapes[i], fields) {
                return Some(i as u32);
            }
            i = i + 1;
        }
        None
    }

    /// The shape ID of `fields`, interning the shape first if it is new.
    pub fn intern_shape(&mut self, fields: Vec<InternId>) -> (id: ShapeId)
        requires
            old(self).wf(),
            old(self)@.shapes.contains(fields@) || old(self)@.shapes.len() < u32::MAX,
        ensures
            final(self).wf(),
            id.heap == old(self)@.id,
            old(self)@.shapes.contains(fields@) ==> final(self)@ == old(self)@,
            !old(self)@.shapes.contains(fields@) ==> final(self)@ == (HeapModel {
                shapes: old(self)@.shapes.push(fields@),
                ..old(self)@
            }) && id.slot == old(self)@.shapes.len(),
            id.slot < final(self)@.shapes.len(),
            final(self)@.shapes[id.slot as int] == fields@,
    {
        if let Some(slot) = self.find_shape(&fields) {
            return ShapeId { heap: self.id, slot };
        }
        let slot = self.shapes.len() as u32;
        let ghost f = fields@;
        self.shapes.push(fields);
        proof {
            assert(vecs_view(self.shapes@) =~= vecs_view(old(self).shapes@).push(f));
        }
        ShapeId { heap: self.id, slot }
    }

    /// The field names of an interned shape.
    pub fn shape(&self, id: ShapeId) -> (r: Result<&Vec<InternId>, HeapError>)
        ensures
            id.heap != self@.id ==> r is Err && r->Err_0 == HeapError(
                "shape ID belongs to another heap",
            ),
            id.heap == self@.id && id.slot >= self@.shapes.len() ==> r is Err && r->Err_0
                == HeapError("shape ID is out of bounds"),
            r is Ok <==> id.heap == self@.id && id.slot < self@.shapes.len(),
            r matches Ok(s) ==> s@ == self@.shapes[id.slot as int],
    {
        if id.heap != self.id {
            return Err(HeapError("shape ID belongs to another heap"));
        }
        if id.slot as usize >= self.shapes.len() {
            return Err(HeapError("shape ID is out of bounds"));
        }
        Ok(&self.shapes[id.slot as usize])
    }
}

/// The heaps that values may refer into: the current one and, behind it, an
/// optional background heap. The current heap wins where both have one ID.
pub struct HeapView<'a, P> {
    pub current: &'a Heap<P>,
    pub background: Option<&'a Heap<P>>,
}

impl<'a, P> HeapView<'a, P> {
    pub open spec fn wf(&self) -> bool {
        &&& self.current.wf()
        &&& (self.background matches Some(b) ==> b.wf())
    }

    /// The heap of `id` that the view sees.
    pub open spec fn spec_heap(&self, id: HeapId) -> Option<HeapModel<P>> {
        if self.current@.id == id {
            Some(self.current@)
        } else {
            match self.background {
                Some(b) => if b@.id == id {
                    Some(b@)
                } else {
                    None
                },
                None => None,
            }
        }
    }

    pub open spec fn spec_object(&self, h: Handle) -> Option<ObjectView<P>> {
        match self.spec_heap(h.heap) {
            Some(m) => if h.slot < m.objects.len() {
                Some(m.objects[h.slot as int])
            } else {
                None
            },
            None => None,
        }
    }

    pub open spec fn spec_text(&self, id: InternId) -> Option<Seq<char>> {
        match self.spec_heap(id.heap) {
            Some(m) => if id.slot < m.texts.len() {
                Some(m.texts[id.slot as int])
            } else {
                None
            },
            None => None,
        }
    }

    pub open spec fn spec_shape(&self, id: ShapeId) -> Option<Seq<InternId>> {
        match self.spec_heap(id.heap) {
            Some(m) => if id.slot < m.shapes.len() {
                Some(m.shapes[id.slot as int])
            } else {
                None
            },
            None => None,
        }
    }

    fn heap(&self, id: HeapId) -> (r: Result<&'a Heap<P>, HeapError>)
        requires
            self.wf(),
        ensures
            r is Ok <==> self.spec_heap(id) is Some,
            r matches Ok(h) ==> self.spec_heap(id) == Some(h@) && h.wf() && h@.id == id,
            r is Err ==> r->Err_0 == HeapError("value refers to a heap outside its view"),
    {
        if self.current.id == id {
            return Ok(self.current);
        }
        match self.background {
            Some(heap) => if heap.id == id {
                Ok(heap)
            } else {
                Err(HeapError("value refers to a heap outside its view"))
            },
            None => Err(HeapError("value refers to a heap outside its view")),
        }
    }

    /// The object a handle addresses in the view.
    pub fn object(&self, handle: Handle) -> (r: Result<&'a Object<P>, HeapError>)
        requires
            self.wf(),
        ensures
            self.spec_heap(handle.heap) is None ==> r is Err && r->Err_0 == HeapError(
                "value refers to a heap outside its view",
            ),
            self.spec_heap(handle.heap) is Some && r is Err ==> r->Err_0 == HeapError(
                "object handle is out of bounds",
            ),
            r is Ok <==> self.spec_object(handle) is Some,
            r matches Ok(o) ==> self.spec_object(handle) == Some(o@),
    {
        let heap = self.heap(handle.heap)?;
        heap.object(handle)
    }

    /// The text an intern ID stands for in the view.
    pub fn text(&self, id: InternId) -> (r: Result<&'a str, HeapError>)
        requires
            self.wf(),
        ensures
            self.spec_heap(id.heap) is None ==> r is Err && r->Err_0 == HeapError(
                "value refers to a heap outside its view",
            ),
            self.spec_heap(id.heap) is Some && r is Err ==> r->Err_0 == HeapError(
                "intern ID is out of bounds",
            ),
            r is Ok <==> self.spec_text(id) is Some,
            r matches Ok(t) ==> self.spec_text(id) == Some(t@),
    {
        let heap = self.heap(id.heap)?;
        heap.resolve_text(id)
    }

    fn shape(&self, id: ShapeId) -> (r: Result<&'a Vec<InternId>, HeapError>)
        requires
            self.wf(),
        ensures
            self.spec_heap(id.heap) is None ==> r is Err && r->Err_0 == HeapError(
                "value refers to a heap outside its view",
            ),
            self.spec_heap(id.heap) is Some && r is Err ==> r->Err_0 == HeapError(
                "shape ID is out of bounds",
            ),
            r is Ok <==> self.spec_shape(id) is Some,
            r matches Ok(s) ==> self.spec_shape(id) == Some(s@),
    {
        let heap = self.heap(id.heap)?;
        heap.shape(id)
    }
}

/// The object a value refers to, if it refers to one.
pub open spec fn value_handle(v: RuntimeValue) -> Option<Handle> {
    match v {
        RuntimeValue::String(h) => Some(h),
        RuntimeValue::Bytes(h) => Some(h),
        RuntimeValue::Array(h) => Some(h),
        RuntimeValue::Tuple(h) => Some(h),
        RuntimeValue::Dict(h) => Some(h),
        RuntimeValue::Func(h) => Some(h),
        _ => None,
    }
}

/// The interned text a value refers to, if it refers to one.
pub open spec fn value_text(v: RuntimeValue) -> Option<InternId> {
    match v {
        RuntimeValue::Atom(id) => Some(id),
        RuntimeValue::ShortString(id) => Some(id),
        _ => None,
    }
}

/// A value refers into a heap other than `target`.
pub open spec fn value_foreign(v: RuntimeValue, target: HeapId) -> bool {
    match value_handle(v) {
        Some(h) => h.heap != target,
        None => match value_text(v) {
            Some(id) => id.heap != target,
            None => false,
        },
    }
}

pub open spec fn values_foreign(vs: Seq<RuntimeValue>, target: HeapId) -> bool {
    exists|i: int| 0 <= i < vs.len() && value_foreign(#[trigger] vs[i], target)
}

/// An object is unfinished or refers into a heap other than `target`.
pub open spec fn object_foreign<P>(o: ObjectView<P>, target: HeapId) -> bool {
    match o {
        ObjectView::Reserved => true,
        ObjectView::Array(vs) => values_foreign(vs, target),
        ObjectView::Tuple(vs) => values_foreign(vs, target),
        ObjectView::Dict(shape, vs) => shape.heap != target || values_foreign(vs, target),
        ObjectView::Closure(_, vs) => values_foreign(vs, target),
        ObjectView::String(_) => false,
        ObjectView::Bytes(_) => false,
    }
}

/// `true` when the value refers into a heap other than `target`.
pub fn value_contains_foreign(value: RuntimeValue, target: HeapId) -> (r: bool)
    ensures
        r == value_foreign(value, target),
{
    match value {
        RuntimeValue::Atom(id) | RuntimeValue::ShortString(id) => id.heap != target,
        RuntimeValue::String(handle)
        | RuntimeValue::Bytes(handle)
        | RuntimeValue::Array(handle)
        | RuntimeValue::Tuple(handle)
        | RuntimeValue::Dict(handle)
        | RuntimeValue::Func(handle) => handle.heap != target,
        RuntimeValue::Int(_) | RuntimeValue::Float(_) | RuntimeValue::BuiltinAtom(_) => false,
    }
}

fn values_contain_foreign(values: &Vec<RuntimeValue>, target: HeapId) -> (r: bool)
    ensures
        r == values_foreign(values@, target),
{
    let mut i: usize = 0;
    while i < values.len()
        invariant
            i <= values@.len(),
            forall|j: int| 0 <= j < i ==> !value_foreign(#[trigger] values@[j], target),
        decreases values@.len() - i,
    {
        if value_contains_foreign(values[i], target) {
            return true;
        }
        i = i + 1;
    }
    false
}

/// `true` when the object is unfinished or refers into a heap other than
/// `target`.
pub fn object_contains_foreign<P>(object: &Object<P>, target: HeapId) -> (r: bool)
    ensures
        r == object_foreign(object@, target),
{
    match object {
        Object::Reserved => true,
        Object::Array(values) | Object::Tuple(values) => values_contain_foreign(values, target),
        Object::Dict { shape, values } => shape.heap != target || values_contain_foreign(
            values,
            target,
        ),
        Object::Closure { upvalues, .. } => values_contain_foreign(upvalues, target),
        Object::String(_) | Object::Bytes(_) => false,
    }
}

/// Where a copy has sent source objects, texts and shapes: to these slots of
/// the target heap.
pub struct Forwarding {
    pub objects: Map<Handle, u32>,
    pub texts: Map<InternId, u32>,
    pub shapes: Map<ShapeId, u32>,
}

/// `g` keeps every entry of `f`.
pub open spec fn forwarding_extends(f: Forwarding, g: Forwarding) -> bool {
    &&& forall|h: Handle| #[trigger] f.objects.contains_key(h) ==> g.objects.contains_key(h)
        && g.objects[h] == f.objects[h]
    &&& forall|id: InternId| #[trigger] f.texts.contains_key(id) ==> g.texts.contains_key(id)
        && g.texts[id] == f.texts[id]
    &&& forall|id: ShapeId| #[trigger] f.shapes.contains_key(id) ==> g.shapes.contains_key(id)
        && g.shapes[id] == f.shapes[id]
}

/// Where a handle leads in heap `t`: itself when it is already there.
pub open spec fn forward_handle(h: Handle, t: HeapId, f: Forwarding) -> Handle {
    if h.heap == t {
        h
    } else {
        Handle { heap: t, slot: f.objects[h] }
    }
}

pub open spec fn forward_text(id: InternId, t: HeapId, f: Forwarding) -> InternId {
    if id.heap == t {
        id
    } else {
        InternId { heap: t, slot: f.texts[id] }
    }
}

pub open spec fn forward_shape(id: ShapeId, t: HeapId, f: Forwarding) -> ShapeId {
    if id.heap == t {
        id
    } else {
        ShapeId { heap: t, slot: f.shapes[id] }
    }
}

/// A value as it reads in heap `t` after the copy.
pub open spec fn forward_value(v: RuntimeValue, t: HeapId, f: Forwarding) -> RuntimeValue {
    match v {
        RuntimeValue::Atom(id) => RuntimeValue::Atom(forward_text(id, t, f)),
        RuntimeValue::ShortString(id) => RuntimeValue::ShortString(forward_text(id, t, f)),
        RuntimeValue::String(h) => RuntimeValue::String(forward_handle(h, t, f)),
        RuntimeValue::Bytes(h) => RuntimeValue::Bytes(forward_handle(h, t, f)),
        RuntimeValue::Array(h) => RuntimeValue::Array(forward_handle(h, t, f)),
        RuntimeValue::Tuple(h) => RuntimeValue::Tuple(forward_handle(h, t, f)),
        RuntimeValue::Dict(h) => RuntimeValue::Dict(forward_handle(h, t, f)),
        RuntimeValue::Func(h) => RuntimeValue::Func(forward_handle(h, t, f)),
        _ => v,
    }
}

pub open spec fn forward_values(vs: Seq<RuntimeValue>, t: HeapId, f: Forwarding) -> Seq<
    RuntimeValue,
> {
    vs.map_values(|v: RuntimeValue| forward_value(v, t, f))
}

pub open spec fn forward_texts(ids: Seq<InternId>, t: HeapId, f: Forwarding) -> Seq<InternId> {
    ids.map_values(|id: InternId| forward_text(id, t, f))
}

/// A reference has somewhere to go: into the target as it was, or through
/// the forwarding.
pub open spec fn handle_resolved<P>(h: Handle, tm: HeapModel<P>, f: Forwarding) -> bool {
    if h.heap == tm.id {
        h.slot < tm.objects.len()
    } else {
        f.objects.contains_key(h)
    }
}

pub open spec fn text_resolved<P>(id: InternId, tm: HeapModel<P>, f: Forwarding) -> bool {
    if id.heap == tm.id {
        id.slot < tm.texts.len()
    } else {
        f.texts.contains_key(id)
    }
}

pub open spec fn shape_resolved<P>(id: ShapeId, tm: HeapModel<P>, f: Forwarding) -> bool {
    if id.heap == tm.id {
        id.slot < tm.shapes.len()
    } else {
        f.shapes.contains_key(id)
    }
}

pub open spec fn value_resolved<P>(v: RuntimeValue, tm: HeapModel<P>, f: Forwarding) -> bool {
    match value_handle(v) {
        Some(h) => handle_resolved(h, tm, f),
        None => match value_text(v) {
            Some(id) => text_resolved(id, tm, f),
            None => true,
        },
    }
}

pub open spec fn values_resolved<P>(vs: Seq<RuntimeValue>, tm: HeapModel<P>, f: Forwarding) -> bool {
    forall|i: int| 0 <= i < vs.len() ==> value_resolved(#[trigger] vs[i], tm, f)
}

pub open spec fn texts_resolved<P>(ids: Seq<InternId>, tm: HeapModel<P>, f: Forwarding) -> bool {
    forall|i: int| 0 <= i < ids.len() ==> text_resolved(#[trigger] ids[i], tm, f)
}

pub open spec fn object_resolved<P>(o: ObjectView<P>, tm: HeapModel<P>, f: Forwarding) -> bool {
    match o {
        ObjectView::Array(vs) => values_resolved(vs, tm, f),
        ObjectView::Tuple(vs) => values_resolved(vs, tm, f),
        ObjectView::Dict(shape, vs) => shape_resolved(shape, tm, f) && values_resolved(vs, tm, f),
        ObjectView::Closure(_, vs) => values_resolved(vs, tm, f),
        _ => true,
    }
}

/// `dst` is `src` copied into heap `t`: the same data, its references
/// forwarded; a closure keeps its kind of code, relinked.
pub open spec fn object_copied<P>(src: ObjectView<P>, dst: ObjectView<P>, t: HeapId, f: Forwarding) -> bool {
    match src {
        ObjectView::Reserved => false,
        ObjectView::String(s) => dst == ObjectView::<P>::String(s),
        ObjectView::Bytes(b) => dst == ObjectView::<P>::Bytes(b),
        ObjectView::Array(vs) => dst == ObjectView::<P>::Array(forward_values(vs, t, f)),
        ObjectView::Tuple(vs) => dst == ObjectView::<P>::Tuple(forward_values(vs, t, f)),
        ObjectView::Dict(shape, vs) => dst == ObjectView::<P>::Dict(
            forward_shape(shape, t, f),
            forward_values(vs, t, f),
        ),
        ObjectView::Closure(_, vs) => dst matches ObjectView::Closure(_, ws) && ws
            == forward_values(vs, t, f),
    }
}

proof fn lemma_value_stable<P>(v: RuntimeValue, tm: HeapModel<P>, f: Forwarding, g: Forwarding)
    requires
        forwarding_extends(f, g),
        value_resolved(v, tm, f),
    ensures
        value_resolved(v, tm, g),
        forward_value(v, tm.id, g) == forward_value(v, tm.id, f),
{
    match value_handle(v) {
        Some(h) => {
            if h.heap != tm.id {
                assert(f.objects.contains_key(h));
            }
        },
        None => match value_text(v) {
            Some(id) => {
                if id.heap != tm.id {
                    assert(f.texts.contains_key(id));
                }
            },
            None => {},
        },
    }
}

proof fn lemma_values_stable<P>(vs: Seq<RuntimeValue>, tm: HeapModel<P>, f: Forwarding, g: Forwarding)
    requires
        forwarding_extends(f, g),
        values_resolved(vs, tm, f),
    ensures
        values_resolved(vs, tm, g),
        forward_values(vs, tm.id, g) == forward_values(vs, tm.id, f),
{
    assert forall|i: int| 0 <= i < vs.len() implies value_resolved(#[trigger] vs[i], tm, g)
        && forward_value(vs[i], tm.id, g) == forward_value(vs[i], tm.id, f) by {
        lemma_value_stable(vs[i], tm, f, g);
    }
    assert(forward_values(vs, tm.id, g) =~= forward_values(vs, tm.id, f));
}

proof fn lemma_texts_stable<P>(ids: Seq<InternId>, tm: HeapModel<P>, f: Forwarding, g: Forwarding)
    requires
        forwarding_extends(f, g),
        texts_resolved(ids, tm, f),
    ensures
        texts_resolved(ids, tm, g),
        forward_texts(ids, tm.id, g) == forward_texts(ids, tm.id, f),
{
    assert forall|i: int| 0 <= i < ids.len() implies text_resolved(#[trigger] ids[i], tm, g)
        && forward_text(ids[i], tm.id, g) == forward_text(ids[i], tm.id, f) by {
        if ids[i].heap != tm.id {
            assert(f.texts.contains_key(ids[i]));
        }
    }
    assert(forward_texts(ids, tm.id, g) =~= forward_texts(ids, tm.id, f));
}

proof fn lemma_object_stable<P>(
    o: ObjectView<P>,
    d: ObjectView<P>,
    tm: HeapModel<P>,
    f: Forwarding,
    g: Forwarding,
)
    requires
        forwarding_extends(f, g),
        object_copied(o, d, tm.id, f),
        object_resolved(o, tm, f),
    ensures
        object_copied(o, d, tm.id, g),
        object_resolved(o, tm, g),
{
    match o {
        ObjectView::Array(vs) => lemma_values_stable(vs, tm, f, g),
        ObjectView::Tuple(vs) => lemma_values_stable(vs, tm, f, g),
        ObjectView::Dict(shape, vs) => {
            lemma_values_stable(vs, tm, f, g);
            if shape.heap != tm.id {
                assert(f.shapes.contains_key(shape));
            }
        },
        ObjectView::Closure(_, vs) => lemma_values_stable(vs, tm, f, g),
        _ => {},
    }
}

/// A forwarded value refers into `t` only.
proof fn lemma_forwarded_value_local(v: RuntimeValue, t: HeapId, f: Forwarding)
    ensures
        !value_foreign(forward_value(v, t, f), t),
{
}

proof fn lemma_forwarded_values_local(vs: Seq<RuntimeValue>, t: HeapId, f: Forwarding)
    ensures
        !values_foreign(forward_values(vs, t, f), t),
{
    assert forall|i: int| 0 <= i < forward_values(vs, t, f).len() implies !value_foreign(
        #[trigger] forward_values(vs, t, f)[i],
        t,
    ) by {
        lemma_forwarded_value_local(vs[i], t, f);
    }
}

/// A copied object refers into `t` only.
proof fn lemma_copied_object_local<P>(o: ObjectView<P>, d: ObjectView<P>, t: HeapId, f: Forwarding)
    requires
        object_copied(o, d, t, f),
    ensures
        !object_foreign(d, t),
{
    match o {
        ObjectView::Array(vs) => lemma_forwarded_values_local(vs, t, f),
        ObjectView::Tuple(vs) => lemma_forwarded_values_local(vs, t, f),
        ObjectView::Dict(_, vs) => lemma_forwarded_values_local(vs, t, f),
        ObjectView::Closure(_, vs) => lemma_forwarded_values_local(vs, t, f),
        _ => {},
    }
}

/// The number of unfilled entries of a forwarding table.
pub open spec fn nones(s: Seq<Option<u32>>) -> nat
    decreases s.len(),
{
    if s.len() == 0 {
        0
    } else {
        nones(s.drop_last()) + if s.last() is None {
            1nat
        } else {
            0nat
        }
    }
}

proof fn lemma_nones_bound(s: Seq<Option<u32>>)
    ensures
        nones(s) <= s.len(),
    decreases s.len(),
{
    if s.len() > 0 {
        lemma_nones_bound(s.drop_last());
    }
}

/// Filling an unfilled entry leaves one fewer.
proof fn lemma_nones_fill(s: Seq<Option<u32>>, i: int, x: u32)
    requires
        0 <= i < s.len(),
        s[i] is None,
    ensures
        nones(s.update(i, Some(x))) + 1 == nones(s),
    decreases s.len(),
{
    let t = s.update(i, Some(x));
    if i == s.len() - 1 {
        assert(t.drop_last() =~= s.drop_last());
    } else {
        assert(t.drop_last() =~= s.drop_last().update(i, Some(x)));
        lemma_nones_fill(s.drop_last(), i, x);
    }
}

proof fn lemma_nones_positive(s: Seq<Option<u32>>, i: int)
    requires
        0 <= i < s.len(),
        s[i] is None,
    ensures
        nones(s) >= 1,
{
    lemma_nones_fill(s, i, 0);
}

pub open spec fn table_at(t: Seq<Option<u32>>, slot: u32) -> Option<u32> {
    if slot < t.len() {
        t[slot as int]
    } else {
        None
    }
}

/// Which heap of the view `id` names: 0 the current one, 1 the background
/// one, 2 neither.
pub open spec fn view_side<P>(view: HeapView<P>, id: HeapId) -> int {
    if view.current@.id == id {
        0
    } else if view.background matches Some(b) && b@.id == id {
        1
    } else {
        2
    }
}

pub open spec fn background_model<P>(view: HeapView<P>) -> HeapModel<P> {
    match view.background {
        Some(b) => b@,
        None => HeapModel {
            id: view.current@.id,
            objects: Seq::empty(),
            texts: Seq::empty(),
            shapes: Seq::empty(),
        },
    }
}

pub open spec fn total_objects<P>(view: HeapView<P>) -> nat {
    view.current@.objects.len() + background_model(view).objects.len()
}

pub open spec fn total_texts<P>(view: HeapView<P>) -> nat {
    view.current@.texts.len() + background_model(view).texts.len()
}

pub open spec fn total_shapes<P>(view: HeapView<P>) -> nat {
    view.current@.shapes.len() + background_model(view).shapes.len()
}

fn view_side_of<P>(source: &HeapView<'_, P>, id: HeapId) -> (s: u8)
    ensures
        s as int == view_side(*source, id),
{
    if source.current.id == id {
        0
    } else {
        match source.background {
            Some(b) => if b.id == id {
                1
            } else {
                2
            },
            None => 2,
        }
    }
}

fn none_table(n: usize) -> (t: Vec<Option<u32>>)
    ensures
        t@.len() == n,
        nones(t@) == n,
        forall|i: int| 0 <= i < n ==> t@[i] is None,
{
    let mut t: Vec<Option<u32>> = Vec::new();
    let mut i: usize = 0;
    while i < n
        invariant
            i <= n,
            t@.len() == i,
            nones(t@) == i,
            forall|j: int| 0 <= j < i ==> t@[j] is None,
        decreases n - i,
    {
        let ghost before = t@;
        t.push(None);
        assert(t@.drop_last() =~= before);
        i = i + 1;
    }
    t
}

fn table_get(t: &Vec<Option<u32>>, slot: u32) -> (r: Option<u32>)
    ensures
        r == table_at(t@, slot),
{
    if (slot as usize) < t.len() {
        t[slot as usize]
    } else {
        None
    }
}

/// A reference that a copy into `tm` can follow: into `tm` itself, or to an
/// initialized object of the view.
pub open spec fn handle_ok<P>(h: Handle, tm: HeapModel<P>, view: HeapView<P>) -> bool {
    if h.heap == tm.id {
        h.slot < tm.objects.len()
    } else {
        view.spec_object(h) is Some && !(view.spec_object(h)->Some_0 is Reserved)
    }
}

pub open spec fn text_ok<P>(id: InternId, tm: HeapModel<P>, view: HeapView<P>) -> bool {
    if id.heap == tm.id {
        id.slot < tm.texts.len()
    } else {
        view.spec_text(id) is Some
    }
}

pub open spec fn texts_ok<P>(ids: Seq<InternId>, tm: HeapModel<P>, view: HeapView<P>) -> bool {
    forall|i: int| 0 <= i < ids.len() ==> text_ok(#[trigger] ids[i], tm, view)
}

pub open spec fn shape_ok<P>(id: ShapeId, tm: HeapModel<P>, view: HeapView<P>) -> bool {
    if id.heap == tm.id {
        id.slot < tm.shapes.len()
    } else {
        view.spec_shape(id) is Some && texts_ok(view.spec_shape(id)->Some_0, tm, view)
    }
}

pub open spec fn value_ok<P>(v: RuntimeValue, tm: HeapModel<P>, view: HeapView<P>) -> bool {
    match value_handle(v) {
        Some(h) => handle_ok(h, tm, view),
        None => match value_text(v) {
            Some(id) => text_ok(id, tm, view),
            None => true,
        },
    }
}

pub open spec fn values_ok<P>(vs: Seq<RuntimeValue>, tm: HeapModel<P>, view: HeapView<P>) -> bool {
    forall|i: int| 0 <= i < vs.len() ==> value_ok(#[trigger] vs[i], tm, view)
}

pub open spec fn object_ok<P>(o: ObjectView<P>, tm: HeapModel<P>, view: HeapView<P>) -> bool {
    match o {
        ObjectView::Reserved => false,
        ObjectView::Array(vs) => values_ok(vs, tm, view),
        ObjectView::Tuple(vs) => values_ok(vs, tm, view),
        ObjectView::Dict(shape, vs) => shape_ok(shape, tm, view) && values_ok(vs, tm, view),
        ObjectView::Closure(_, vs) => values_ok(vs, tm, view),
        _ => true,
    }
}

/// Every initialized object of the view, outside `tm`, holds only references
/// that a copy into `tm` can follow.
pub open spec fn view_followable<P>(view: HeapView<P>, tm: HeapModel<P>) -> bool {
    forall|h: Handle| #[trigger] view.spec_object(h) is Some && h.heap != tm.id && !(view.spec_object(
        h,
    )->Some_0 is Reserved) ==> object_ok(view.spec_object(h)->Some_0, tm, view)
}

/// A copy in progress: what it will append to the target heap, and where it
/// has sent what it has seen of the source view, by source heap and slot.
struct PendingCopy<P> {
    target_id: HeapId,
    object_base: u32,
    objects: Vec<Object<P>>,
    text_base: u32,
    text: TextTable,
    shape_base: u32,
    shapes: Vec<Vec<InternId>>,
    current_objects: Vec<Option<u32>>,
    background_objects: Vec<Option<u32>>,
    current_texts: Vec<Option<u32>>,
    background_texts: Vec<Option<u32>>,
    current_shapes: Vec<Option<u32>>,
    background_shapes: Vec<Option<u32>>,
    origin: Ghost<Seq<Handle>>,
}

impl<P> PendingCopy<P> {
    spec fn fwd_object(&self, view: HeapView<P>, h: Handle) -> Option<u32> {
        if h.heap == self.target_id {
            None
        } else if view_side(view, h.heap) == 0 {
            table_at(self.current_objects@, h.slot)
        } else if view_side(view, h.heap) == 1 {
            table_at(self.background_objects@, h.slot)
        } else {
            None
        }
    }

    spec fn fwd_text(&self, view: HeapView<P>, id: InternId) -> Option<u32> {
        if id.heap == self.target_id {
            None
        } else if view_side(view, id.heap) == 0 {
            table_at(self.current_texts@, id.slot)
        } else if view_side(view, id.heap) == 1 {
            table_at(self.background_texts@, id.slot)
        } else {
            None
        }
    }

    spec fn fwd_shape(&self, view: HeapView<P>, id: ShapeId) -> Option<u32> {
        if id.heap == self.target_id {
            None
        } else if view_side(view, id.heap) == 0 {
            table_at(self.current_shapes@, id.slot)
        } else if view_side(view, id.heap) == 1 {
            table_at(self.background_shapes@, id.slot)
        } else {
            None
        }
    }

    spec fn forwarding(&self, view: HeapView<P>) -> Forwarding {
        Forwarding {
            objects: Map::new(
                |h: Handle| self.fwd_object(view, h) is Some,
                |h: Handle| self.fwd_object(view, h)->Some_0,
            ),
            texts: Map::new(
                |id: InternId| self.fwd_text(view, id) is Some,
                |id: InternId| self.fwd_text(view, id)->Some_0,
            ),
            shapes: Map::new(
                |id: ShapeId| self.fwd_shape(view, id) is Some,
                |id: ShapeId| self.fwd_shape(view, id)->Some_0,
            ),
        }
    }

    spec fn pending_texts(&self) -> Seq<Seq<char>> {
        self.text.texts()
    }

    spec fn pending_shapes(&self) -> Seq<Seq<InternId>> {
        vecs_view(self.shapes@)
    }

    spec fn source_of(&self, view: HeapView<P>, k: int) -> ObjectView<P> {
        view.spec_object(self.origin@[k])->Some_0
    }

    /// Every entry of `self` stays in `next`.
    spec fn grows_to(&self, next: &Self, view: HeapView<P>) -> bool {
        &&& next.target_id == self.target_id
        &&& forall|h: Handle| #[trigger] self.fwd_object(view, h) is Some ==> next.fwd_object(view, h)
            == self.fwd_object(view, h)
        &&& forall|id: InternId| #[trigger] self.fwd_text(view, id) is Some ==> next.fwd_text(view, id)
            == self.fwd_text(view, id)
        &&& forall|id: ShapeId| #[trigger] self.fwd_shape(view, id) is Some ==> next.fwd_shape(view, id)
            == self.fwd_shape(view, id)
    }

    spec fn objects_inv(&self, tm: HeapModel<P>, view: HeapView<P>) -> bool {
        &&& self.origin@.len() == self.objects@.len()
        &&& forall|k: int| 0 <= k < self.origin@.len() ==> #[trigger] self.fwd_object(view, self.origin@[k])
            == Some((self.object_base + k) as u32) && (view.spec_object(self.origin@[k]) matches Some(o)
            && !(o is Reserved))
        &&& forall|h: Handle| #[trigger] self.fwd_object(view, h) matches Some(t) ==> self.object_base <= t
            < self.object_base + self.objects@.len() && self.origin@[t - self.object_base] == h
        &&& forall|k: int| 0 <= k < self.objects@.len() ==> #[trigger] self.object_done(tm, view, k)
    }

    spec fn texts_inv(&self, tm: HeapModel<P>, view: HeapView<P>) -> bool {
        &&& self.text.wf()
        &&& self.pending_texts().no_duplicates()
        &&& forall|i: int| 0 <= i < self.pending_texts().len() ==> !tm.texts.contains(
            #[trigger] self.pending_texts()[i],
        )
        &&& forall|id: InternId| #[trigger] self.fwd_text(view, id) is Some ==> self.text_entry(tm, view, id)
    }

    spec fn text_entry(&self, tm: HeapModel<P>, view: HeapView<P>, id: InternId) -> bool {
        let t = self.fwd_text(view, id)->Some_0;
        &&& view.spec_text(id) is Some
        &&& t < tm.texts.len() + self.pending_texts().len()
        &&& (tm.texts + self.pending_texts())[t as int] == view.spec_text(id)->Some_0
    }

    spec fn shape_entry(&self, tm: HeapModel<P>, view: HeapView<P>, id: ShapeId) -> bool {
        let t = self.fwd_shape(view, id)->Some_0;
        let fields = view.spec_shape(id)->Some_0;
        &&& view.spec_shape(id) is Some
        &&& texts_resolved(fields, tm, self.forwarding(view))
        &&& t < tm.shapes.len() + self.pending_shapes().len()
        &&& (tm.shapes + self.pending_shapes())[t as int] == forward_texts(fields, tm.id, self.forwarding(view))
    }

    spec fn object_done(&self, tm: HeapModel<P>, view: HeapView<P>, k: int) -> bool {
        ||| self.objects@[k]@ is Reserved
        ||| object_copied(self.source_of(view, k), self.objects@[k]@, tm.id, self.forwarding(view))
            && object_resolved(self.source_of(view, k), tm, self.forwarding(view))
    }

    spec fn shapes_inv(&self, tm: HeapModel<P>, view: HeapView<P>) -> bool {
        &&& self.pending_shapes().no_duplicates()
        &&& forall|i: int| 0 <= i < self.pending_shapes().len() ==> !tm.shapes.contains(
            #[trigger] self.pending_shapes()[i],
        )
        &&& forall|id: ShapeId| #[trigger] self.fwd_shape(view, id) is Some ==> self.shape_entry(tm, view, id)
    }

    spec fn inv(&self, tm: HeapModel<P>, view: HeapView<P>) -> bool {
        &&& view.wf()
        &&& heap_wf(tm)
        &&& self.target_id == tm.id
        &&& self.object_base == tm.objects.len()
        &&& self.text_base == tm.texts.len()
        &&& self.shape_base == tm.shapes.len()
        &&& tm.objects.len() + total_objects(view) <= u32::MAX
        &&& tm.texts.len() + total_texts(view) <= u32::MAX
        &&& tm.shapes.len() + total_shapes(view) <= u32::MAX
        &&& self.current_objects@.len() == view.current@.objects.len()
        &&& self.background_objects@.len() == background_model(view).objects.len()
        &&& self.current_texts@.len() == view.current@.texts.len()
        &&& self.background_texts@.len() == background_model(view).texts.len()
        &&& self.current_shapes@.len() == view.current@.shapes.len()
        &&& self.background_shapes@.len() == background_model(view).shapes.len()
        &&& self.objects@.len() + nones(self.current_objects@) + nones(self.background_objects@)
            == total_objects(view)
        &&& self.pending_texts().len() + nones(self.current_texts@) + nones(self.background_texts@)
            <= total_texts(view)
        &&& self.pending_shapes().len() + nones(self.current_shapes@) + nones(
            self.background_shapes@,
        ) <= total_shapes(view)
        &&& self.objects_inv(tm, view)
        &&& self.texts_inv(tm, view)
        &&& self.shapes_inv(tm, view)
    }
}

impl<P> PendingCopy<P> {
    fn new(target: &Heap<P>, source: &HeapView<'_, P>) -> (p: Self)
        requires
            target.wf(),
            source.wf(),
            target@.objects.len() + total_objects(*source) <= u32::MAX,
            target@.texts.len() + total_texts(*source) <= u32::MAX,
            target@.shapes.len() + total_shapes(*source) <= u32::MAX,
        ensures
            p.inv(target@, *source),
            p.objects@.len() == 0,
    {
        let (bo, bt, bs) = match source.background {
            Some(b) => b.counts(),
            None => (0, 0, 0),
        };
        let (co, ct, cs) = source.current.counts();
        let p = PendingCopy {
            target_id: target.id,
            object_base: target.objects.len() as u32,
            objects: Vec::new(),
            text_base: target.text.values.len() as u32,
            text: TextTable::new(),
            shape_base: target.shapes.len() as u32,
            shapes: Vec::new(),
            current_objects: none_table(co),
            background_objects: none_table(bo),
            current_texts: none_table(ct),
            background_texts: none_table(bt),
            current_shapes: none_table(cs),
            background_shapes: none_table(bs),
            origin: Ghost(Seq::empty()),
        };
        proof {
            let view = *source;
            assert forall|h: Handle| #[trigger] p.fwd_object(view, h) is None by {}
            assert forall|id: InternId| #[trigger] p.fwd_text(view, id) is None by {}
            assert forall|id: ShapeId| #[trigger] p.fwd_shape(view, id) is None by {}
            assert(p.pending_shapes() =~= Seq::<Seq<InternId>>::empty());
        }
        p
    }

    /// Sends a text of the source view to the target: to the same text
    /// already in the target, or already pending, or to a new pending one.
    fn copy_text(&mut self, target: &Heap<P>, source: &HeapView<'_, P>, id: InternId) -> (r: Result<
        InternId,
        HeapError,
    >)
        requires
            old(self).inv(target@, *source),
        ensures
            text_ok(id, target@, *source) ==> r is Ok,
            r is Ok ==> final(self).inv(target@, *source),
            r is Ok ==> old(self).grows_to(final(self), *source),
            r is Ok ==> final(self).objects@ == old(self).objects@ && final(self).origin@ == old(
                self,
            ).origin@ && final(self).shapes@ == old(self).shapes@,
            r is Ok ==> forall|x: ShapeId| #[trigger] final(self).fwd_shape(*source, x) == old(
                self,
            ).fwd_shape(*source, x),
            r is Ok ==> forall|h: Handle| #[trigger] final(self).fwd_object(*source, h) == old(
                self,
            ).fwd_object(*source, h),
            r matches Ok(c) ==> text_resolved(id, target@, final(self).forwarding(*source)) && c
                == forward_text(id, target@.id, final(self).forwarding(*source)),
    {
        let ghost view = *source;
        let ghost tm = target@;
        if id.heap == self.target_id {
            target.resolve_text(id)?;
            return Ok(id);
        }
        let side = view_side_of(source, id.heap);
        let forwarded = if side == 0 {
            table_get(&self.current_texts, id.slot)
        } else if side == 1 {
            table_get(&self.background_texts, id.slot)
        } else {
            None
        };
        if let Some(slot) = forwarded {
            proof {
                assert(self.fwd_text(view, id) == Some(slot));
            }
            return Ok(InternId { heap: self.target_id, slot });
        }
        let text = source.text(id)?;
        proof {
            assert(self.fwd_text(view, id) is None);
            if side == 0 {
                lemma_nones_positive(self.current_texts@, id.slot as int);
            } else {
                lemma_nones_positive(self.background_texts@, id.slot as int);
            }
            lemma_nones_bound(self.current_texts@);
            lemma_nones_bound(self.background_texts@);
        }
        let copied = match target.find_text(text) {
            Some(found) => found,
            None => match self.text.find(text) {
                Some(slot) => InternId { heap: self.target_id, slot: self.text_base + slot },
                None => {
                    let local = self.text.insert(text);
                    InternId { heap: self.target_id, slot: self.text_base + local }
                },
            },
        };
        let ghost mid = *self;
        if side == 0 {
            proof {
                lemma_nones_fill(self.current_texts@, id.slot as int, copied.slot);
            }
            self.current_texts.set(id.slot as usize, Some(copied.slot));
        } else {
            proof {
                lemma_nones_fill(self.background_texts@, id.slot as int, copied.slot);
            }
            self.background_texts.set(id.slot as usize, Some(copied.slot));
        }
        proof {
            assert forall|x: InternId| #[trigger] old(self).fwd_text(view, x) is Some implies self.fwd_text(
                view,
                x,
            ) == old(self).fwd_text(view, x) by {
                assert(x != id);
            }
            assert forall|x: ShapeId| #[trigger] self.fwd_shape(view, x) == old(self).fwd_shape(view, x) by {}
            assert forall|h: Handle| #[trigger] self.fwd_object(view, h) == old(self).fwd_object(view, h) by {}
            assert(old(self).grows_to(self, view));
            lemma_growth_keeps_copies(old(self), self, tm, view);
            assert(self.fwd_text(view, id) == Some(copied.slot));
            let all_old = tm.texts + old(self).pending_texts();
            let all_new = tm.texts + self.pending_texts();
            assert(all_old.len() <= all_new.len());
            assert(forall|i: int| 0 <= i < all_old.len() ==> all_new[i] == all_old[i]);
            assert forall|x: InternId| #[trigger] self.fwd_text(view, x) is Some implies self.text_entry(
                tm,
                view,
                x,
            ) by {
                if x != id {
                    assert(old(self).fwd_text(view, x) is Some);
                    assert(old(self).text_entry(tm, view, x));
                }
            }
            assert forall|i: int| 0 <= i < self.pending_texts().len() implies !tm.texts.contains(
                #[trigger] self.pending_texts()[i],
            ) by {
                if i >= old(self).pending_texts().len() {
                    assert(self.pending_texts()[i] == text@);
                }
            }
        }
        Ok(copied)
    }
}

impl<P> PendingCopy<P> {
    fn find_pending_shape(&self, fields: &Vec<InternId>) -> (r: Option<u32>)
        requires
            self.shapes@.len() <= u32::MAX,
        ensures
            r matches Some(i) ==> i < self.pending_shapes().len() && self.pending_shapes()[i as int]
                == fields@,
            r is None ==> !self.pending_shapes().contains(fields@),
    {
        let mut i: usize = 0;
        while i < self.shapes.len()
            invariant
                self.shapes@.len() <= u32::MAX,
                i <= self.shapes@.len(),
                forall|j: int| 0 <= j < i ==> self.pending_shapes()[j] != fields@,
            decreases self.shapes@.len() - i,
        {
            if same_fields(&self.shapes[i], fields) {
                return Some(i as u32);
            }
            i = i + 1;
        }
        None
    }

    /// Sends a shape of the source view to the target: its field texts
    /// first, then the shape itself, to an equal one already in the target
    /// or pending, or to a new pending one.
    fn copy_shape(&mut self, target: &Heap<P>, source: &HeapView<'_, P>, id: ShapeId) -> (r: Result<
        ShapeId,
        HeapError,
    >)
        requires
            old(self).inv(target@, *source),
        ensures
            shape_ok(id, target@, *source) ==> r is Ok,
            r is Ok ==> final(self).inv(target@, *source),
            r is Ok ==> old(self).grows_to(final(self), *source),
            r is Ok ==> final(self).objects@ == old(self).objects@ && final(self).origin@ == old(
                self,
            ).origin@,
            r is Ok ==> forall|h: Handle| #[trigger] final(self).fwd_object(*source, h) == old(
                self,
            ).fwd_object(*source, h),
            r matches Ok(c) ==> shape_resolved(id, target@, final(self).forwarding(*source)) && c
                == forward_shape(id, target@.id, final(self).forwarding(*source)),
    {
        let ghost view = *source;
        let ghost tm = target@;
        if id.heap == self.target_id {
            target.shape(id)?;
            return Ok(id);
        }
        let side = view_side_of(source, id.heap);
        let forwarded = if side == 0 {
            table_get(&self.current_shapes, id.slot)
        } else if side == 1 {
            table_get(&self.background_shapes, id.slot)
        } else {
            None
        };
        if let Some(slot) = forwarded {
            proof {
                assert(self.fwd_shape(view, id) == Some(slot));
            }
            return Ok(ShapeId { heap: self.target_id, slot });
        }
        let source_fields = source.shape(id)?;
        let mut fields: Vec<InternId> = Vec::new();
        let mut i: usize = 0;
        while i < source_fields.len()
            invariant
                tm == target@,
                view == *source,
                self.inv(tm, view),
                old(self).grows_to(self, view),
                self.objects@ == old(self).objects@,
                self.origin@ == old(self).origin@,
                self.shapes@ == old(self).shapes@,
                forall|h: Handle| #[trigger] self.fwd_object(view, h) == old(self).fwd_object(view, h),
                forall|x: ShapeId| #[trigger] self.fwd_shape(view, x) == old(self).fwd_shape(view, x),
                self.fwd_shape(view, id) is None,
                view.spec_shape(id) == Some(source_fields@),
                id.heap != tm.id,
                shape_ok(id, tm, view) ==> texts_ok(source_fields@, tm, view),
                i <= source_fields@.len(),
                fields@ == forward_texts(source_fields@.take(i as int), tm.id, self.forwarding(view)),
                texts_resolved(source_fields@.take(i as int), tm, self.forwarding(view)),
            decreases source_fields@.len() - i,
        {
            let ghost before = *self;
            let c = self.copy_text(target, source, source_fields[i])?;
            proof {
                lemma_grows_extends(&before, self, view);
                lemma_texts_stable(
                    source_fields@.take(i as int),
                    tm,
                    before.forwarding(view),
                    self.forwarding(view),
                );
                assert(source_fields@.take(i as int + 1) =~= source_fields@.take(i as int).push(
                    source_fields@[i as int],
                ));
                assert forall|h: Handle| #[trigger] old(self).fwd_object(view, h) is Some implies self.fwd_object(
                    view,
                    h,
                ) == old(self).fwd_object(view, h) by {}
                assert forall|x: InternId| #[trigger] old(self).fwd_text(view, x) is Some implies self.fwd_text(
                    view,
                    x,
                ) == old(self).fwd_text(view, x) by {
                    assert(before.fwd_text(view, x) is Some);
                }
            }
            fields.push(c);
            proof {
                assert(fields@ =~= forward_texts(
                    source_fields@.take(i as int + 1),
                    tm.id,
                    self.forwarding(view),
                ));
            }
            i = i + 1;
        }
        proof {
            assert(source_fields@.take(i as int) =~= source_fields@);
            if side == 0 {
                lemma_nones_positive(self.current_shapes@, id.slot as int);
            } else {
                lemma_nones_positive(self.background_shapes@, id.slot as int);
            }
            lemma_nones_bound(self.current_shapes@);
            lemma_nones_bound(self.background_shapes@);
        }
        let ghost fields_view = fields@;
        let ghost pre = *self;
        let copied = match target.find_shape(&fields) {
            Some(slot) => ShapeId { heap: self.target_id, slot },
            None => match self.find_pending_shape(&fields) {
                Some(index) => ShapeId { heap: self.target_id, slot: self.shape_base + index },
                None => {
                    let c = ShapeId {
                        heap: self.target_id,
                        slot: self.shape_base + self.shapes.len() as u32,
                    };
                    self.shapes.push(fields);
                    proof {
                        assert(vecs_view(self.shapes@) =~= vecs_view(pre.shapes@).push(fields_view));
                    }
                    c
                },
            },
        };
        proof {
            assert(self.pending_shapes() == pre.pending_shapes() || (self.pending_shapes()
                == pre.pending_shapes().push(fields_view) && !tm.shapes.contains(fields_view)
                && !pre.pending_shapes().contains(fields_view)));
            assert(copied.slot < tm.shapes.len() + self.pending_shapes().len());
            assert((tm.shapes + self.pending_shapes())[copied.slot as int] == fields_view);
        }
        let ghost mid = *self;
        if side == 0 {
            proof {
                lemma_nones_fill(self.current_shapes@, id.slot as int, copied.slot);
            }
            self.current_shapes.set(id.slot as usize, Some(copied.slot));
        } else {
            proof {
                lemma_nones_fill(self.background_shapes@, id.slot as int, copied.slot);
            }
            self.background_shapes.set(id.slot as usize, Some(copied.slot));
        }
        proof {
            assert forall|x: ShapeId| #[trigger] pre.fwd_shape(view, x) is Some implies self.fwd_shape(
                view,
                x,
            ) == pre.fwd_shape(view, x) by {
                assert(x != id);
            }
            assert forall|x: InternId| #[trigger] self.fwd_text(view, x) == pre.fwd_text(view, x) by {}
            assert forall|h: Handle| #[trigger] self.fwd_object(view, h) == pre.fwd_object(view, h) by {}
            assert(pre.grows_to(self, view));
            lemma_grows_extends(&pre, self, view);
            let f = pre.forwarding(view);
            let g = self.forwarding(view);
            assert(g.texts =~= f.texts);
            assert(g.objects =~= f.objects);
            assert forall|k: int| 0 <= k < self.objects@.len() implies #[trigger] self.object_done(
                tm,
                view,
                k,
            ) by {
                assert(pre.object_done(tm, view, k));
                if !(pre.objects@[k]@ is Reserved) {
                    lemma_object_stable(pre.source_of(view, k), pre.objects@[k]@, tm, f, g);
                }
            }
            assert(self.fwd_shape(view, id) == Some(copied.slot));
            assert forall|x: ShapeId| #[trigger] self.fwd_shape(view, x) is Some implies self.shape_entry(
                tm,
                view,
                x,
            ) by {
                if x == id {
                    lemma_texts_stable(source_fields@, tm, f, g);
                } else {
                    assert(pre.fwd_shape(view, x) is Some);
                    assert(pre.shape_entry(tm, view, x));
                    let fx = view.spec_shape(x)->Some_0;
                    lemma_texts_stable(fx, tm, f, g);
                    let t = pre.fwd_shape(view, x)->Some_0;
                    assert((tm.shapes + pre.pending_shapes())[t as int] == (tm.shapes
                        + self.pending_shapes())[t as int]);
                }
            }
            assert forall|x: InternId| #[trigger] self.fwd_text(view, x) is Some implies self.text_entry(
                tm,
                view,
                x,
            ) by {
                assert(pre.text_entry(tm, view, x));
            }
            assert forall|i: int| 0 <= i < self.pending_shapes().len() implies !tm.shapes.contains(
                #[trigger] self.pending_shapes()[i],
            ) by {
                if i >= pre.pending_shapes().len() {
                    assert(self.pending_shapes()[i] == fields_view);
                } else {
                    assert(self.pending_shapes()[i] == pre.pending_shapes()[i]);
                }
            }
            assert forall|x: InternId| #[trigger] old(self).fwd_text(view, x) is Some implies self.fwd_text(
                view,
                x,
            ) == old(self).fwd_text(view, x) by {
                assert(pre.fwd_text(view, x) is Some);
            }
            assert forall|x: ShapeId| #[trigger] old(self).fwd_shape(view, x) is Some implies self.fwd_shape(
                view,
                x,
            ) == old(self).fwd_shape(view, x) by {
                assert(pre.fwd_shape(view, x) is Some);
            }
            assert(old(self).grows_to(self, view));
        }
        Ok(copied)
    }
}

fn copy_bytes(bytes: &Vec<u8>) -> (r: Vec<u8>)
    ensures
        r@ == bytes@,
{
    let mut r: Vec<u8> = Vec::new();
    let mut i: usize = 0;
    while i < bytes.len()
        invariant
            i <= bytes@.len(),
            r@ == bytes@.take(i as int),
        decreases bytes@.len() - i,
    {
        r.push(bytes[i]);
        proof {
            assert(bytes@.take(i as int + 1) =~= bytes@.take(i as int).push(bytes@[i as int]));
        }
        i = i + 1;
    }
    proof {
        assert(bytes@.take(i as int) =~= bytes@);
    }
    r
}

proof fn lemma_shape_stable<P>(id: ShapeId, tm: HeapModel<P>, f: Forwarding, g: Forwarding)
    requires
        forwarding_extends(f, g),
        shape_resolved(id, tm, f),
    ensures
        shape_resolved(id, tm, g),
        forward_shape(id, tm.id, g) == forward_shape(id, tm.id, f),
{
    if id.heap != tm.id {
        assert(f.shapes.contains_key(id));
    }
}

proof fn lemma_grows_trans<P>(a: &PendingCopy<P>, b: &PendingCopy<P>, c: &PendingCopy<P>, view: HeapView<P>)
    requires
        a.grows_to(b, view),
        b.grows_to(c, view),
    ensures
        a.grows_to(c, view),
{
    assert forall|h: Handle| #[trigger] a.fwd_object(view, h) is Some implies c.fwd_object(view, h)
        == a.fwd_object(view, h) by {
        assert(b.fwd_object(view, h) is Some);
    }
    assert forall|id: InternId| #[trigger] a.fwd_text(view, id) is Some implies c.fwd_text(view, id)
        == a.fwd_text(view, id) by {
        assert(b.fwd_text(view, id) is Some);
    }
    assert forall|id: ShapeId| #[trigger] a.fwd_shape(view, id) is Some implies c.fwd_shape(view, id)
        == a.fwd_shape(view, id) by {
        assert(b.fwd_shape(view, id) is Some);
    }
}

impl<P> PendingCopy<P> {
    /// The objects of `before` stay as they were, and no new object is left
    /// unfinished.
    spec fn kept(&self, before: &Self) -> bool {
        &&& self.objects@.len() >= before.objects@.len()
        &&& self.origin@.len() >= before.origin@.len()
        &&& forall|k: int| 0 <= k < before.objects@.len() ==> #[trigger] self.objects@[k] == before.objects@[k]
        &&& forall|k: int| 0 <= k < before.origin@.len() ==> #[trigger] self.origin@[k] == before.origin@[k]
        &&& forall|k: int| before.objects@.len() <= k < self.objects@.len() ==> !(
        #[trigger] self.objects@[k]@ is Reserved)
    }
}

impl<P: Relink> PendingCopy<P> {
    fn copy_value(&mut self, target: &Heap<P>, source: &HeapView<'_, P>, value: RuntimeValue) -> (r: Result<
        RuntimeValue,
        HeapError,
    >)
        requires
            old(self).inv(target@, *source),
        ensures
            view_followable(*source, target@) && value_ok(value, target@, *source) ==> r is Ok,
            r is Ok ==> final(self).inv(target@, *source),
            r is Ok ==> old(self).grows_to(final(self), *source),
            r is Ok ==> final(self).kept(old(self)),
            r matches Ok(w) ==> value_resolved(value, target@, final(self).forwarding(*source)) && w
                == forward_value(value, target@.id, final(self).forwarding(*source)),
        decreases total_objects(*source) - old(self).objects@.len(), 2nat,
    {
        let ghost view = *source;
        let ghost tm = target@;
        let r = match value {
            RuntimeValue::Int(_) | RuntimeValue::Float(_) | RuntimeValue::BuiltinAtom(_) => {
                proof {
                    assert(self.forwarding(view).objects =~= old(self).forwarding(view).objects);
                }
                value
            },
            RuntimeValue::Atom(id) => RuntimeValue::Atom(self.copy_text(target, source, id)?),
            RuntimeValue::ShortString(id) => RuntimeValue::ShortString(
                self.copy_text(target, source, id)?,
            ),
            RuntimeValue::String(handle) => RuntimeValue::String(
                self.copy_object(target, source, handle)?,
            ),
            RuntimeValue::Bytes(handle) => RuntimeValue::Bytes(
                self.copy_object(target, source, handle)?,
            ),
            RuntimeValue::Array(handle) => RuntimeValue::Array(
                self.copy_object(target, source, handle)?,
            ),
            RuntimeValue::Tuple(handle) => RuntimeValue::Tuple(
                self.copy_object(target, source, handle)?,
            ),
            RuntimeValue::Dict(handle) => RuntimeValue::Dict(self.copy_object(target, source, handle)?),
            RuntimeValue::Func(handle) => RuntimeValue::Func(self.copy_object(target, source, handle)?),
        };
        Ok(r)
    }

    fn copy_values(&mut self, target: &Heap<P>, source: &HeapView<'_, P>, values: &Vec<RuntimeValue>) -> (r:
        Result<Vec<RuntimeValue>, HeapError>)
        requires
            old(self).inv(target@, *source),
        ensures
            view_followable(*source, target@) && values_ok(values@, target@, *source) ==> r is Ok,
            r is Ok ==> final(self).inv(target@, *source),
            r is Ok ==> old(self).grows_to(final(self), *source),
            r is Ok ==> final(self).kept(old(self)),
            r matches Ok(ws) ==> values_resolved(values@, target@, final(self).forwarding(*source))
                && ws@ == forward_values(values@, target@.id, final(self).forwarding(*source)),
        decreases total_objects(*source) - old(self).objects@.len(), 3nat,
    {
        let ghost view = *source;
        let ghost tm = target@;
        let mut out: Vec<RuntimeValue> = Vec::new();
        let mut i: usize = 0;
        while i < values.len()
            invariant
                tm == target@,
                view == *source,
                self.inv(tm, view),
                old(self).grows_to(self, view),
                self.kept(old(self)),
                i <= values@.len(),
                out@ == forward_values(values@.take(i as int), tm.id, self.forwarding(view)),
                values_resolved(values@.take(i as int), tm, self.forwarding(view)),
            decreases values@.len() - i,
        {
            let ghost before = *self;
            let w = self.copy_value(target, source, values[i])?;
            proof {
                lemma_grows_extends(&before, self, view);
                lemma_values_stable(
                    values@.take(i as int),
                    tm,
                    before.forwarding(view),
                    self.forwarding(view),
                );
                lemma_grows_trans(old(self), &before, self, view);
                assert(values@.take(i as int + 1) =~= values@.take(i as int).push(values@[i as int]));
            }
            out.push(w);
            proof {
                assert(out@ =~= forward_values(values@.take(i as int + 1), tm.id, self.forwarding(view)));
            }
            i = i + 1;
        }
        proof {
            assert(values@.take(i as int) =~= values@);
        }
        Ok(out)
    }

    fn copy_object_data(&mut self, target: &Heap<P>, source: &HeapView<'_, P>, object: &Object<P>) -> (r:
        Result<Object<P>, HeapError>)
        requires
            old(self).inv(target@, *source),
        ensures
            view_followable(*source, target@) && object_ok(object@, target@, *source) ==> r is Ok,
            r is Ok ==> final(self).inv(target@, *source),
            r is Ok ==> old(self).grows_to(final(self), *source),
            r is Ok ==> final(self).kept(old(self)),
            r matches Ok(d) ==> object_copied(object@, d@, target@.id, final(self).forwarding(*source))
                && object_resolved(object@, target@, final(self).forwarding(*source)),
        decreases total_objects(*source) - old(self).objects@.len(), 4nat,
    {
        let ghost view = *source;
        let ghost tm = target@;
        match object {
            Object::Reserved => Err(HeapError("cannot copy an uninitialized object")),
            Object::String(value) => Ok(Object::String(value.clone())),
            Object::Bytes(value) => Ok(Object::Bytes(copy_bytes(value))),
            Object::Array(values) => {
                let copied = self.copy_values(target, source, values)?;
                Ok(Object::Array(copied))
            },
            Object::Tuple(values) => {
                let copied = self.copy_values(target, source, values)?;
                Ok(Object::Tuple(copied))
            },
            Object::Dict { shape, values } => {
                let copied_shape = self.copy_shape(target, source, *shape)?;
                let ghost mid = *self;
                let copied = self.copy_values(target, source, values)?;
                proof {
                    lemma_grows_extends(&mid, self, view);
                    lemma_shape_stable(*shape, tm, mid.forwarding(view), self.forwarding(view));
                    lemma_grows_trans(old(self), &mid, self, view);
                }
                Ok(Object::Dict { shape: copied_shape, values: copied })
            },
            Object::Closure { prototype, upvalues } => {
                let relinked = prototype.relink();
                let copied = self.copy_values(target, source, upvalues)?;
                Ok(Object::Closure { prototype: relinked, upvalues: copied })
            },
        }
    }

    fn copy_object(&mut self, target: &Heap<P>, source: &HeapView<'_, P>, handle: Handle) -> (r: Result<
        Handle,
        HeapError,
    >)
        requires
            old(self).inv(target@, *source),
        ensures
            view_followable(*source, target@) && handle_ok(handle, target@, *source) ==> r is Ok,
            r is Ok ==> final(self).inv(target@, *source),
            r is Ok ==> old(self).grows_to(final(self), *source),
            r is Ok ==> final(self).kept(old(self)),
            r matches Ok(h) ==> handle_resolved(handle, target@, final(self).forwarding(*source)) && h
                == forward_handle(handle, target@.id, final(self).forwarding(*source)),
        decreases total_objects(*source) - old(self).objects@.len(), 1nat,
    {
        let ghost view = *source;
        let ghost tm = target@;
        if handle.heap == self.target_id {
            target.object(handle)?;
            return Ok(handle);
        }
        let side = view_side_of(source, handle.heap);
        let forwarded = if side == 0 {
            table_get(&self.current_objects, handle.slot)
        } else if side == 1 {
            table_get(&self.background_objects, handle.slot)
        } else {
            None
        };
        if let Some(slot) = forwarded {
            proof {
                assert(self.fwd_object(view, handle) == Some(slot));
            }
            return Ok(Handle { heap: self.target_id, slot });
        }
        let object = source.object(handle)?;
        if matches!(object, Object::Reserved) {
            return Err(HeapError("cannot copy an uninitialized object"));
        }
        proof {
            assert(self.fwd_object(view, handle) is None);
            if side == 0 {
                lemma_nones_positive(self.current_objects@, handle.slot as int);
            } else {
                lemma_nones_positive(self.background_objects@, handle.slot as int);
            }
            lemma_nones_bound(self.current_objects@);
            lemma_nones_bound(self.background_objects@);
        }
        let index = self.objects.len();
        let copied = Handle { heap: self.target_id, slot: self.object_base + index as u32 };
        if side == 0 {
            proof {
                lemma_nones_fill(self.current_objects@, handle.slot as int, copied.slot);
            }
            self.current_objects.set(handle.slot as usize, Some(copied.slot));
        } else {
            proof {
                lemma_nones_fill(self.background_objects@, handle.slot as int, copied.slot);
            }
            self.background_objects.set(handle.slot as usize, Some(copied.slot));
        }
        self.objects.push(Object::Reserved);
        self.origin = Ghost(self.origin@.push(handle));
        proof {
            let a = old(self);
            assert forall|h: Handle| #[trigger] a.fwd_object(view, h) is Some implies self.fwd_object(
                view,
                h,
            ) == a.fwd_object(view, h) by {
                assert(h != handle);
            }
            assert forall|x: InternId| #[trigger] self.fwd_text(view, x) == a.fwd_text(view, x) by {}
            assert forall|x: ShapeId| #[trigger] self.fwd_shape(view, x) == a.fwd_shape(view, x) by {}
            assert(a.grows_to(self, view));
            lemma_grows_extends(a, self, view);
            let f = a.forwarding(view);
            let g = self.forwarding(view);
            assert(g.texts =~= f.texts);
            assert(g.shapes =~= f.shapes);
            assert(self.fwd_object(view, handle) == Some(copied.slot));
            assert forall|k: int| 0 <= k < self.origin@.len() implies #[trigger] self.fwd_object(
                view,
                self.origin@[k],
            ) == Some((self.object_base + k) as u32) && (view.spec_object(self.origin@[k]) matches Some(
                o,
            ) && !(o is Reserved)) by {
                if k < a.origin@.len() {
                    assert(a.fwd_object(view, a.origin@[k]) is Some);
                }
            }
            assert forall|h: Handle| #[trigger] self.fwd_object(view, h) is Some implies self.object_base
                <= self.fwd_object(view, h)->Some_0 < self.object_base + self.objects@.len()
                && self.origin@[self.fwd_object(view, h)->Some_0 - self.object_base] == h by {
                if h != handle {
                    assert(a.fwd_object(view, h) is Some);
                }
            }
            assert forall|k: int| 0 <= k < self.objects@.len() implies #[trigger] self.object_done(
                tm,
                view,
                k,
            ) by {
                if k < a.objects@.len() {
                    assert(a.object_done(tm, view, k));
                    assert(self.objects@[k] == a.objects@[k]);
                    assert(self.origin@[k] == a.origin@[k]);
                    if !(a.objects@[k]@ is Reserved) {
                        lemma_object_stable(a.source_of(view, k), a.objects@[k]@, tm, f, g);
                    }
                }
            }
            assert forall|x: InternId| #[trigger] self.fwd_text(view, x) is Some implies self.text_entry(
                tm,
                view,
                x,
            ) by {
                assert(a.text_entry(tm, view, x));
            }
            assert forall|x: ShapeId| #[trigger] self.fwd_shape(view, x) is Some implies self.shape_entry(
                tm,
                view,
                x,
            ) by {
                assert(a.shape_entry(tm, view, x));
                let fx = view.spec_shape(x)->Some_0;
                lemma_texts_stable(fx, tm, f, g);
            }
            assert(self.inv(tm, view));
        }
        let ghost registered = *self;
        let data = self.copy_object_data(target, source, object)?;
        let ghost filled = *self;
        self.objects.set(index, data);
        proof {
            let b = &registered;
            let c = &filled;
            assert(self.forwarding(view).objects =~= c.forwarding(view).objects);
            assert(self.forwarding(view).texts =~= c.forwarding(view).texts);
            assert(self.forwarding(view).shapes =~= c.forwarding(view).shapes);
            assert(c.origin@[index as int] == handle);
            assert forall|h: Handle| #[trigger] self.fwd_object(view, h) == c.fwd_object(view, h) by {}
            assert forall|x: InternId| #[trigger] self.fwd_text(view, x) == c.fwd_text(view, x) by {}
            assert forall|x: ShapeId| #[trigger] self.fwd_shape(view, x) == c.fwd_shape(view, x) by {}
            assert(self.forwarding(view) == c.forwarding(view));
            assert forall|x: InternId| #[trigger] self.fwd_text(view, x) is Some implies self.text_entry(
                tm,
                view,
                x,
            ) by {
                assert(c.text_entry(tm, view, x));
            }
            assert forall|x: ShapeId| #[trigger] self.fwd_shape(view, x) is Some implies self.shape_entry(
                tm,
                view,
                x,
            ) by {
                assert(c.shape_entry(tm, view, x));
            }
            assert forall|k: int| 0 <= k < self.origin@.len() implies #[trigger] self.fwd_object(
                view,
                self.origin@[k],
            ) == Some((self.object_base + k) as u32) && (view.spec_object(self.origin@[k]) matches Some(
                o,
            ) && !(o is Reserved)) by {
                assert(c.fwd_object(view, c.origin@[k]) == Some((c.object_base + k) as u32));
            }
            assert forall|h: Handle| #[trigger] self.fwd_object(view, h) is Some implies self.object_base
                <= self.fwd_object(view, h)->Some_0 < self.object_base + self.objects@.len()
                && self.origin@[self.fwd_object(view, h)->Some_0 - self.object_base] == h by {
                assert(c.fwd_object(view, h) is Some);
            }
            assert forall|k: int| 0 <= k < self.objects@.len() implies #[trigger] self.object_done(
                tm,
                view,
                k,
            ) by {
                if k != index {
                    assert(c.object_done(tm, view, k));
                }
            }
            assert forall|h: Handle| #[trigger] old(self).fwd_object(view, h) is Some implies self.fwd_object(
                view,
                h,
            ) == old(self).fwd_object(view, h) by {
                assert(b.fwd_object(view, h) is Some);
            }
            assert forall|x: InternId| #[trigger] old(self).fwd_text(view, x) is Some implies self.fwd_text(
                view,
                x,
            ) == old(self).fwd_text(view, x) by {
                assert(b.fwd_text(view, x) is Some);
            }
            assert forall|x: ShapeId| #[trigger] old(self).fwd_shape(view, x) is Some implies self.fwd_shape(
                view,
                x,
            ) == old(self).fwd_shape(view, x) by {
                assert(b.fwd_shape(view, x) is Some);
            }
            assert(self.fwd_object(view, handle) == Some(copied.slot));
            assert forall|k: int| old(self).objects@.len() <= k < self.objects@.len() implies !(
            #[trigger] self.objects@[k]@ is Reserved) by {
                if k != index {
                    assert(k >= b.objects@.len());
                }
            }
        }
        Ok(copied)
    }
}

fn copy_fields(fields: &Vec<InternId>) -> (r: Vec<InternId>)
    ensures
        r@ == fields@,
{
    let mut r: Vec<InternId> = Vec::new();
    let mut i: usize = 0;
    while i < fields.len()
        invariant
            i <= fields@.len(),
            r@ == fields@.take(i as int),
        decreases fields@.len() - i,
    {
        r.push(fields[i]);
        proof {
            assert(fields@.take(i as int + 1) =~= fields@.take(i as int).push(fields@[i as int]));
        }
        i = i + 1;
    }
    proof {
        assert(fields@.take(i as int) =~= fields@);
    }
    r
}

impl<P> PendingCopy<P> {
    /// Fails when a pending object is unfinished or refers outside the
    /// target heap.
    fn validate(&self) -> (r: Result<(), HeapError>)
        ensures
            r is Ok <==> forall|k: int| 0 <= k < self.objects@.len() ==> !object_foreign(
                #[trigger] self.objects@[k]@,
                self.target_id,
            ),
            r is Err ==> r->Err_0 == HeapError("copied object graph is not target-self-contained"),
    {
        let mut i: usize = 0;
        while i < self.objects.len()
            invariant
                i <= self.objects@.len(),
                forall|k: int| 0 <= k < i ==> !object_foreign(#[trigger] self.objects@[k]@, self.target_id),
            decreases self.objects@.len() - i,
        {
            if object_contains_foreign(&self.objects[i], self.target_id) {
                return Err(HeapError("copied object graph is not target-self-contained"));
            }
            i = i + 1;
        }
        Ok(())
    }

    /// Appends the pending objects, texts and shapes to the target.
    fn commit(self, target: &mut Heap<P>)
        requires
            old(target).wf(),
            self.target_id == old(target)@.id,
            self.text.wf(),
            self.pending_texts().no_duplicates(),
            forall|i: int| 0 <= i < self.pending_texts().len() ==> !old(target)@.texts.contains(
                #[trigger] self.pending_texts()[i],
            ),
            self.pending_shapes().no_duplicates(),
            forall|i: int| 0 <= i < self.pending_shapes().len() ==> !old(target)@.shapes.contains(
                #[trigger] self.pending_shapes()[i],
            ),
            old(target)@.objects.len() + self.objects@.len() <= u32::MAX,
            old(target)@.texts.len() + self.pending_texts().len() <= u32::MAX,
            old(target)@.shapes.len() + self.pending_shapes().len() <= u32::MAX,
        ensures
            final(target).wf(),
            final(target)@ == (HeapModel {
                id: old(target)@.id,
                objects: old(target)@.objects + objects_view(self.objects@),
                texts: old(target)@.texts + self.pending_texts(),
                shapes: old(target)@.shapes + self.pending_shapes(),
            }),
    {
        let ghost pending_texts = self.pending_texts();
        let ghost pending_shapes = self.pending_shapes();
        let ghost pending_objects = objects_view(self.objects@);
        let PendingCopy { objects, text, shapes, .. } = self;
        let mut objects = objects;
        target.objects.append(&mut objects);
        proof {
            assert(objects_view(target.objects@) =~= old(target)@.objects + pending_objects);
            assert(target@.objects =~= old(target)@.objects + pending_objects);
        }
        let mut i: usize = 0;
        while i < text.values.len()
            invariant
                target.wf(),
                strings_view(text.values@) == pending_texts,
                pending_texts.no_duplicates(),
                forall|j: int| 0 <= j < pending_texts.len() ==> !old(target)@.texts.contains(
                    #[trigger] pending_texts[j],
                ),
                old(target)@.texts.len() + pending_texts.len() <= u32::MAX,
                i <= pending_texts.len(),
                target@.id == old(target)@.id,
                target@.objects == old(target)@.objects + pending_objects,
                target@.shapes == old(target)@.shapes,
                target@.texts == old(target)@.texts + pending_texts.take(i as int),
            decreases pending_texts.len() - i,
        {
            proof {
                let t = pending_texts[i as int];
                if target@.texts.contains(t) {
                    let j = choose|j: int| 0 <= j < target@.texts.len() && target@.texts[j] == t;
                    if j < old(target)@.texts.len() {
                        assert(old(target)@.texts[j] == t);
                        assert(old(target)@.texts.contains(t));
                    } else {
                        assert(pending_texts[j - old(target)@.texts.len()] == t);
                    }
                }
            }
            target.intern(text.values[i].as_str());
            proof {
                assert(pending_texts.take(i as int + 1) =~= pending_texts.take(i as int).push(
                    pending_texts[i as int],
                ));
                assert(target@.texts =~= old(target)@.texts + pending_texts.take(i as int + 1));
            }
            i = i + 1;
        }
        proof {
            assert(pending_texts.take(i as int) =~= pending_texts);
        }
        let mut j: usize = 0;
        while j < shapes.len()
            invariant
                target.wf(),
                vecs_view(shapes@) == pending_shapes,
                pending_shapes.no_duplicates(),
                forall|k: int| 0 <= k < pending_shapes.len() ==> !old(target)@.shapes.contains(
                    #[trigger] pending_shapes[k],
                ),
                old(target)@.shapes.len() + pending_shapes.len() <= u32::MAX,
                j <= pending_shapes.len(),
                target@.id == old(target)@.id,
                target@.objects == old(target)@.objects + pending_objects,
                target@.texts == old(target)@.texts + pending_texts,
                target@.shapes == old(target)@.shapes + pending_shapes.take(j as int),
            decreases pending_shapes.len() - j,
        {
            proof {
                let t = pending_shapes[j as int];
                if target@.shapes.contains(t) {
                    let k = choose|k: int| 0 <= k < target@.shapes.len() && target@.shapes[k] == t;
                    if k < old(target)@.shapes.len() {
                        assert(old(target)@.shapes[k] == t);
                        assert(old(target)@.shapes.contains(t));
                    } else {
                        assert(pending_shapes[k - old(target)@.shapes.len()] == t);
                    }
                }
            }
            let fields = copy_fields(&shapes[j]);
            target.intern_shape(fields);
            proof {
                assert(pending_shapes.take(j as int + 1) =~= pending_shapes.take(j as int).push(
                    pending_shapes[j as int],
                ));
                assert(target@.shapes =~= old(target)@.shapes + pending_shapes.take(j as int + 1));
            }
            j = j + 1;
        }
        proof {
            assert(pending_shapes.take(j as int) =~= pending_shapes);
        }
    }
}

/// Some source object is sent to slot `i`.
pub open spec fn forwarded_to(f: Forwarding, i: int) -> bool {
    exists|h: Handle| #[trigger] f.objects.contains_key(h) && f.objects[h] == i
}

/// Where `f` sends a source object, `after` holds its copy, beyond what
/// `before` held.
pub open spec fn object_forwarded<P>(
    before: HeapModel<P>,
    after: HeapModel<P>,
    view: HeapView<P>,
    f: Forwarding,
    h: Handle,
) -> bool {
    let t = f.objects[h];
    &&& h.heap != before.id
    &&& view.spec_object(h) is Some
    &&& before.objects.len() <= t < after.objects.len()
    &&& object_copied(view.spec_object(h)->Some_0, after.objects[t as int], before.id, f)
    &&& object_resolved(view.spec_object(h)->Some_0, before, f)
}

/// `after` is `before` with copies appended, sent where `f` says: each
/// forwarded object is copied, its references forwarded; each new slot holds
/// the copy of exactly one source object; each forwarded text and shape reads
/// as it did in the source view.
pub open spec fn copied_into<P>(
    before: HeapModel<P>,
    after: HeapModel<P>,
    view: HeapView<P>,
    f: Forwarding,
) -> bool {
    &&& after.id == before.id
    &&& before.objects.len() <= after.objects.len()
    &&& after.objects.subrange(0, before.objects.len() as int) == before.objects
    &&& before.texts.len() <= after.texts.len()
    &&& after.texts.subrange(0, before.texts.len() as int) == before.texts
    &&& before.shapes.len() <= after.shapes.len()
    &&& after.shapes.subrange(0, before.shapes.len() as int) == before.shapes
    &&& forall|h: Handle| #[trigger] f.objects.contains_key(h) ==> object_forwarded(before, after, view, f, h)
    &&& forall|i: int| before.objects.len() <= i < after.objects.len() ==> #[trigger] forwarded_to(f, i)
    &&& forall|h1: Handle, h2: Handle| #[trigger] f.objects.contains_key(h1) && #[trigger]
        f.objects.contains_key(h2) && f.objects[h1] == f.objects[h2] ==> h1 == h2
    &&& forall|id: InternId| #[trigger] f.texts.contains_key(id) ==> id.heap != before.id && f.texts[id]
        < after.texts.len() && view.spec_text(id) == Some(after.texts[f.texts[id] as int])
    &&& forall|id: ShapeId| #[trigger] f.shapes.contains_key(id) ==> id.heap != before.id && view.spec_shape(id)
        is Some && texts_resolved(view.spec_shape(id)->Some_0, before, f) && f.shapes[id]
        < after.shapes.len() && after.shapes[f.shapes[id] as int] == forward_texts(
        view.spec_shape(id)->Some_0,
        before.id,
        f,
    )
}

/// Copies the object graphs that `roots` reach through `source` into
/// `target`, and gives the roots as they read there. References into the
/// target stay; each source object, text and shape is copied once, however
/// often it is reached, so sharing and cycles survive; texts and shapes the
/// target already has are reused. Either every copy lands or, on an error,
/// the target is left as it was.
pub fn copy_roots<P: Relink>(target: &mut Heap<P>, source: HeapView<'_, P>, roots: &[RuntimeValue]) -> (r:
    Result<Vec<RuntimeValue>, HeapError>)
    requires
        old(target).wf(),
        source.wf(),
        old(target)@.objects.len() + total_objects(source) <= u32::MAX,
        old(target)@.texts.len() + total_texts(source) <= u32::MAX,
        old(target)@.shapes.len() + total_shapes(source) <= u32::MAX,
    ensures
        view_followable(source, old(target)@) && values_ok(roots@, old(target)@, source) ==> r is Ok,
        r is Err ==> final(target)@ == old(target)@,
        r is Ok ==> final(target).wf(),
        r matches Ok(copied) ==> exists|f: Forwarding| #[trigger]
            copied_into(old(target)@, final(target)@, source, f) && values_resolved(
                roots@,
                old(target)@,
                f,
            ) && copied@ == forward_values(roots@, old(target)@.id, f),
        r matches Ok(copied) ==> forall|i: int| 0 <= i < copied@.len() ==> !value_foreign(
            #[trigger] copied@[i],
            old(target)@.id,
        ),
        r is Ok ==> forall|i: int| old(target)@.objects.len() <= i < final(target)@.objects.len()
            ==> !object_foreign(#[trigger] final(target)@.objects[i], old(target)@.id),
{
    let ghost view = source;
    let ghost tm = target@;
    let mut pending = PendingCopy::new(target, &source);
    let ghost start = pending;
    let mut copied: Vec<RuntimeValue> = Vec::new();
    let mut i: usize = 0;
    while i < roots.len()
        invariant
            tm == old(target)@,
            view == source,
            target@ == tm,
            target.wf(),
            pending.inv(tm, view),
            pending.kept(&start),
            start.objects@.len() == 0,
            i <= roots@.len(),
            copied@ == forward_values(roots@.take(i as int), tm.id, pending.forwarding(view)),
            values_resolved(roots@.take(i as int), tm, pending.forwarding(view)),
        decreases roots@.len() - i,
    {
        let ghost before = pending;
        let v = pending.copy_value(target, &source, roots[i])?;
        proof {
            lemma_grows_extends(&before, &pending, view);
            lemma_values_stable(roots@.take(i as int), tm, before.forwarding(view), pending.forwarding(view));
            assert(roots@.take(i as int + 1) =~= roots@.take(i as int).push(roots@[i as int]));
            assert forall|k: int| start.objects@.len() <= k < pending.objects@.len() implies !(
            #[trigger] pending.objects@[k]@ is Reserved) by {
                if k >= before.objects@.len() {
                } else {
                    assert(pending.objects@[k] == before.objects@[k]);
                }
            }
        }
        copied.push(v);
        proof {
            assert(copied@ =~= forward_values(roots@.take(i as int + 1), tm.id, pending.forwarding(view)));
        }
        i = i + 1;
    }
    let ghost p = pending;
    let ghost f = pending.forwarding(view);
    proof {
        assert(roots@.take(i as int) =~= roots@);
        assert forall|k: int| 0 <= k < p.objects@.len() implies !object_foreign(
            #[trigger] p.objects@[k]@,
            p.target_id,
        ) by {
            assert(p.object_done(tm, view, k));
            lemma_copied_object_local(p.source_of(view, k), p.objects@[k]@, tm.id, f);
        }
        lemma_nones_bound(p.current_texts@);
        lemma_nones_bound(p.background_texts@);
        lemma_nones_bound(p.current_shapes@);
        lemma_nones_bound(p.background_shapes@);
    }
    pending.validate()?;
    pending.commit(target);
    proof {
        let after = target@;
        let base = tm.objects.len();
        assert(after.objects.subrange(0, base as int) =~= tm.objects);
        assert(after.texts.subrange(0, tm.texts.len() as int) =~= tm.texts);
        assert(after.shapes.subrange(0, tm.shapes.len() as int) =~= tm.shapes);
        assert forall|h: Handle| #[trigger] f.objects.contains_key(h) implies object_forwarded(
            tm,
            after,
            view,
            f,
            h,
        ) by {
            let t = p.fwd_object(view, h)->Some_0;
            let k = t - base;
            assert(p.origin@[k] == h);
            assert(p.object_done(tm, view, k));
            assert(after.objects[t as int] == p.objects@[k]@);
        }
        assert forall|n: int| base <= n < after.objects.len() implies #[trigger] forwarded_to(f, n) by {
            let k = n - base;
            assert(p.fwd_object(view, p.origin@[k]) == Some((base + k) as u32));
            assert(f.objects.contains_key(p.origin@[k]));
        }
        assert forall|h1: Handle, h2: Handle| #[trigger] f.objects.contains_key(h1) && #[trigger]
            f.objects.contains_key(h2) && f.objects[h1] == f.objects[h2] implies h1 == h2 by {
            assert(p.fwd_object(view, h1) is Some);
            assert(p.fwd_object(view, h2) is Some);
        }
        assert forall|id: InternId| #[trigger] f.texts.contains_key(id) implies id.heap != tm.id
            && f.texts[id] < after.texts.len() && view.spec_text(id) == Some(after.texts[f.texts[id] as int]) by {
            assert(p.text_entry(tm, view, id));
        }
        assert forall|id: ShapeId| #[trigger] f.shapes.contains_key(id) implies id.heap != tm.id
            && view.spec_shape(id) is Some && texts_resolved(view.spec_shape(id)->Some_0, tm, f)
            && f.shapes[id] < after.shapes.len() && after.shapes[f.shapes[id] as int] == forward_texts(
            view.spec_shape(id)->Some_0,
            tm.id,
            f,
        ) by {
            assert(p.shape_entry(tm, view, id));
        }
        assert(copied_into(tm, after, view, f));
        assert forall|n: int| 0 <= n < copied@.len() implies !value_foreign(#[trigger] copied@[n], tm.id) by {
            lemma_forwarded_value_local(roots@[n], tm.id, f);
        }
        assert forall|n: int| tm.objects.len() <= n < after.objects.len() implies !object_foreign(
            #[trigger] after.objects[n],
            tm.id,
        ) by {
            assert(after.objects[n] == p.objects@[n - base]@);
        }
    }
    Ok(copied)
}

/// The values an object holds: the items of an array, tuple or record, the
/// captured values of a closure.
pub open spec fn object_values<P>(o: ObjectView<P>) -> Seq<RuntimeValue> {
    match o {
        ObjectView::Array(vs) => vs,
        ObjectView::Tuple(vs) => vs,
        ObjectView::Dict(_, vs) => vs,
        ObjectView::Closure(_, vs) => vs,
        _ => Seq::empty(),
    }
}

/// A copied object holds, position by position, what its source held,
/// forwarded; so an object that refers to itself refers to its own copy, and
/// cycles survive the copy.
pub proof fn lemma_copy_keeps_references<P>(
    before: HeapModel<P>,
    after: HeapModel<P>,
    view: HeapView<P>,
    f: Forwarding,
    h: Handle,
    i: int,
)
    requires
        copied_into(before, after, view, f),
        f.objects.contains_key(h),
        0 <= i < object_values(view.spec_object(h)->Some_0).len(),
    ensures
        object_values(after.objects[f.objects[h] as int]).len() == object_values(
            view.spec_object(h)->Some_0,
        ).len(),
        object_values(after.objects[f.objects[h] as int])[i] == forward_value(
            object_values(view.spec_object(h)->Some_0)[i],
            before.id,
            f,
        ),
        value_handle(object_values(view.spec_object(h)->Some_0)[i]) == Some(h) ==> value_handle(
            object_values(after.objects[f.objects[h] as int])[i],
        ) == Some(Handle { heap: before.id, slot: f.objects[h] }),
{
    assert(object_forwarded(before, after, view, f, h));
}

/// Equal roots come out of one copy equal: one forwarding serves every root,
/// so what several roots reach is copied once.
pub proof fn lemma_equal_roots_share_copy(roots: Seq<RuntimeValue>, t: HeapId, f: Forwarding, i: int, j: int)
    requires
        0 <= i < roots.len(),
        0 <= j < roots.len(),
        roots[i] == roots[j],
    ensures
        forward_values(roots, t, f)[i] == forward_values(roots, t, f)[j],
{
}

proof fn lemma_grows_extends<P>(a: &PendingCopy<P>, b: &PendingCopy<P>, view: HeapView<P>)
    requires
        a.grows_to(b, view),
    ensures
        forwarding_extends(a.forwarding(view), b.forwarding(view)),
{
    let f = a.forwarding(view);
    let g = b.forwarding(view);
    assert forall|h: Handle| #[trigger] f.objects.contains_key(h) implies g.objects.contains_key(h)
        && g.objects[h] == f.objects[h] by {
        assert(a.fwd_object(view, h) is Some);
    }
    assert forall|id: InternId| #[trigger] f.texts.contains_key(id) implies g.texts.contains_key(id)
        && g.texts[id] == f.texts[id] by {
        assert(a.fwd_text(view, id) is Some);
    }
    assert forall|id: ShapeId| #[trigger] f.shapes.contains_key(id) implies g.shapes.contains_key(id)
        && g.shapes[id] == f.shapes[id] by {
        assert(a.fwd_shape(view, id) is Some);
    }
}

/// Growth of the forwarding keeps every finished object and every forwarded
/// shape as the invariant describes them.
proof fn lemma_growth_keeps_copies<P>(
    a: &PendingCopy<P>,
    b: &PendingCopy<P>,
    tm: HeapModel<P>,
    view: HeapView<P>,
)
    requires
        a.grows_to(b, view),
        a.objects_inv(tm, view),
        a.shapes_inv(tm, view),
        b.origin@ == a.origin@,
        b.objects@ == a.objects@,
        forall|id: ShapeId| #[trigger] b.fwd_shape(view, id) is Some ==> a.fwd_shape(view, id) is Some,
        b.pending_shapes() == a.pending_shapes(),
        b.target_id == tm.id,
    ensures
        forall|k: int| 0 <= k < b.objects@.len() ==> #[trigger] b.object_done(tm, view, k),
        forall|id: ShapeId| #[trigger] b.fwd_shape(view, id) is Some ==> b.shape_entry(tm, view, id),
{
    lemma_grows_extends(a, b, view);
    let f = a.forwarding(view);
    let g = b.forwarding(view);
    assert forall|k: int| 0 <= k < b.objects@.len() implies #[trigger] b.object_done(tm, view, k) by {
        assert(a.object_done(tm, view, k));
        if !(a.objects@[k]@ is Reserved) {
            lemma_object_stable(a.source_of(view, k), a.objects@[k]@, tm, f, g);
        }
    }
    assert forall|id: ShapeId| #[trigger] b.fwd_shape(view, id) is Some implies b.shape_entry(tm, view, id) by {
        assert(a.fwd_shape(view, id) is Some);
        assert(a.shape_entry(tm, view, id));
        let fields = view.spec_shape(id)->Some_0;
        lemma_texts_stable(fields, tm, f, g);
    }
}

/// The builtin atom that `name` names, if any.
pub open spec fn builtin_named(name: Seq<char>) -> Option<BuiltinAtom> {
    if name == BuiltinAtom::NoneAtom.spec_name() {
        Some(BuiltinAtom::NoneAtom)
    } else if name == BuiltinAtom::SomeAtom.spec_name() {
        Some(BuiltinAtom::SomeAtom)
    } else if name == BuiltinAtom::OkAtom.spec_name() {
        Some(BuiltinAtom::OkAtom)
    } else if name == BuiltinAtom::ErrAtom.spec_name() {
        Some(BuiltinAtom::ErrAtom)
    } else if name == BuiltinAtom::True.spec_name() {
        Some(BuiltinAtom::True)
    } else if name == BuiltinAtom::False.spec_name() {
        Some(BuiltinAtom::False)
    } else {
        None
    }
}

/// The builtin atom that `text` names, if any.
pub fn builtin_atom(text: &str) -> (r: Option<BuiltinAtom>)
    ensures
        r == builtin_named(text@),
{
    if same_str(text, BuiltinAtom::NoneAtom.name()) {
        Some(BuiltinAtom::NoneAtom)
    } else if same_str(text, BuiltinAtom::SomeAtom.name()) {
        Some(BuiltinAtom::SomeAtom)
    } else if same_str(text, BuiltinAtom::OkAtom.name()) {
        Some(BuiltinAtom::OkAtom)
    } else if same_str(text, BuiltinAtom::ErrAtom.name()) {
        Some(BuiltinAtom::ErrAtom)
    } else if same_str(text, BuiltinAtom::True.name()) {
        Some(BuiltinAtom::True)
    } else if same_str(text, BuiltinAtom::False.name()) {
        Some(BuiltinAtom::False)
    } else {
        None
    }
}

} // verus!
