use vstd::prelude::*;
use crate::decode::{Shape, agrees, all_well_formed, decode, shape_result, well_formed};
use crate::decode::lemma_well_formed_at;
use crate::scalar::{parse_string, string_model};
use crate::tree::{DecodeError, Kind, Node};
use crate::value::{Val, Value, val_of};

verus! {

/// A result of handing out an item agrees with its model: an item whose
/// content is the modelled one, or the same error.
pub open spec fn agrees_some(r: Result<Option<Value>, DecodeError>, m: Result<Val, DecodeError>) -> bool {
    match (r, m) {
        (Ok(Some(x)), Ok(v)) => val_of(x) == v,
        (Err(e), Err(f)) => e == f,
        _ => false,
    }
}

/// Hands out the elements of an array one at a time, in source order.
pub struct SeqAccess<'a> {
    nodes: &'a Vec<Node>,
    pos: usize,
}

impl<'a> SeqAccess<'a> {
    pub closed spec fn wf(&self) -> bool {
        self.pos <= self.nodes.len() && all_well_formed(self.nodes@)
    }

    /// The elements not handed out yet.
    pub closed spec fn remaining(&self) -> Seq<Node> {
        self.nodes@.subrange(self.pos as int, self.nodes.len() as int)
    }

    /// An adapter over the elements of an array node.
    pub fn new(node: &'a Node) -> (r: SeqAccess<'a>)
        requires
            well_formed(*node),
            node.kind == Kind::Array,
        ensures
            r.wf(),
            r.remaining() == node.children@,
    {
        proof {
            assert(node.children@.subrange(0, node.children.len() as int) == node.children@);
        }
        SeqAccess { nodes: &node.children, pos: 0 }
    }

    /// Decodes the next element as `shape`, or gives `None` once all have been
    /// handed out. The element is used up either way.
    pub fn next_element(&mut self, shape: Shape) -> (r: Result<Option<Value>, DecodeError>)
        requires
            old(self).wf(),
        ensures
            final(self).wf(),
            old(self).remaining().len() == 0 ==> r == Ok::<Option<Value>, DecodeError>(None)
                && final(self).remaining() == old(self).remaining(),
            old(self).remaining().len() > 0 ==> {
                &&& final(self).remaining() == old(self).remaining().drop_first()
                &&& agrees_some(r, shape_result(old(self).remaining()[0], shape))
            },
    {
        if self.pos == self.nodes.len() {
            return Ok(None);
        }
        proof {
            lemma_well_formed_at(self.nodes@, self.pos as int);
        }
        let r = decode(&self.nodes[self.pos], shape);
        self.pos = self.pos + 1;
        assert(self.remaining() =~= old(self).remaining().drop_first());
        match r {
            Ok(v) => Ok(Some(v)),
            Err(e) => Err(e),
        }
    }

    /// Hands out the next element node for the caller to decode in a shape of
    /// its own, or `None` once all have been handed out.
    pub fn next_node(&mut self) -> (r: Option<&'a Node>)
        requires
            old(self).wf(),
        ensures
            final(self).wf(),
            old(self).remaining().len() == 0 ==> r is None && final(self).remaining() == old(
                self,
            ).remaining(),
            old(self).remaining().len() > 0 ==> (r matches Some(n) && *n == old(
                self,
            ).remaining()[0] && well_formed(*n)) && final(self).remaining() == old(
                self,
            ).remaining().drop_first(),
    {
        if self.pos == self.nodes.len() {
            return None;
        }
        proof {
            lemma_well_formed_at(self.nodes@, self.pos as int);
        }
        let n = &self.nodes[self.pos];
        self.pos = self.pos + 1;
        assert(self.remaining() =~= old(self).remaining().drop_first());
        Some(n)
    }
}

/// Hands out the keys and values of an object in source order, a key first
/// and then its value. Duplicate keys are handed out as they come.
pub struct MapAccess<'a> {
    nodes: &'a Vec<Node>,
    pos: usize,
    pending: bool,
}

impl<'a> MapAccess<'a> {
    pub closed spec fn wf(&self) -> bool {
        &&& self.pos <= self.nodes.len()
        &&& self.nodes.len() % 2 == 0
        &&& all_well_formed(self.nodes@)
        &&& self.pending <==> self.pos % 2 == 1
    }

    /// The keys and values not handed out yet, alternating.
    pub closed spec fn remaining(&self) -> Seq<Node> {
        self.nodes@.subrange(self.pos as int, self.nodes.len() as int)
    }

    /// Whether a key has just been handed out and its value not yet.
    pub closed spec fn pending(&self) -> bool {
        self.pending
    }

    /// An adapter over the members of an object node.
    pub fn new(node: &'a Node) -> (r: MapAccess<'a>)
        requires
            well_formed(*node),
            node.kind == Kind::Object,
        ensures
            r.wf(),
            r.remaining() == node.children@,
            !r.pending(),
    {
        proof {
            assert(node.children@.subrange(0, node.children.len() as int) == node.children@);
        }
        MapAccess { nodes: &node.children, pos: 0, pending: false }
    }

    /// Decodes the next key as `shape`, or gives `None` once all members have
    /// been handed out. A key that fails to decode uses up its value too.
    pub fn next_key(&mut self, shape: Shape) -> (r: Result<Option<Value>, DecodeError>)
        requires
            old(self).wf(),
            !old(self).pending(),
        ensures
            final(self).wf(),
            old(self).remaining().len() == 0 ==> r == Ok::<Option<Value>, DecodeError>(None)
                && final(self).remaining() == old(self).remaining() && !final(self).pending(),
            old(self).remaining().len() > 0 ==> {
                &&& r is Ok ==> final(self).remaining() == old(self).remaining().drop_first()
                    && final(self).pending()
                &&& r is Err ==> final(self).remaining() == old(self).remaining().subrange(
                    2,
                    old(self).remaining().len() as int,
                ) && !final(self).pending()
                &&& agrees_some(r, shape_result(old(self).remaining()[0], shape))
            },
    {
        if self.pos == self.nodes.len() {
            return Ok(None);
        }
        proof {
            lemma_well_formed_at(self.nodes@, self.pos as int);
        }
        let r = decode(&self.nodes[self.pos], shape);
        match r {
            Ok(v) => {
                self.pos = self.pos + 1;
                self.pending = true;
                assert(self.remaining() =~= old(self).remaining().drop_first());
                Ok(Some(v))
            },
            Err(e) => {
                self.pos = self.pos + 2;
                assert(self.remaining() =~= old(self).remaining().subrange(
                    2,
                    old(self).remaining().len() as int,
                ));
                Err(e)
            },
        }
    }

    /// Decodes the value of the key just handed out as `shape`.
    pub fn next_value(&mut self, shape: Shape) -> (r: Result<Value, DecodeError>)
        requires
            old(self).wf(),
            old(self).pending(),
        ensures
            final(self).wf(),
            !final(self).pending(),
            old(self).remaining().len() > 0,
            final(self).remaining() == old(self).remaining().drop_first(),
            agrees(r, shape_result(old(self).remaining()[0], shape)),
    {
        proof {
            lemma_well_formed_at(self.nodes@, self.pos as int);
        }
        let r = decode(&self.nodes[self.pos], shape);
        self.pos = self.pos + 1;
        self.pending = false;
        assert(self.remaining() =~= old(self).remaining().drop_first());
        r
    }

    /// Whether a key has just been handed out and its value not yet.
    pub fn is_pending(&self) -> (r: bool)
        ensures
            r == self.pending(),
    {
        self.pending
    }

    /// Hands out the next key node for the caller to decode in a shape of its
    /// own, or `None` once all members have been handed out.
    pub fn next_key_node(&mut self) -> (r: Option<&'a Node>)
        requires
            old(self).wf(),
            !old(self).pending(),
        ensures
            final(self).wf(),
            final(self).pending() == r is Some,
            old(self).remaining().len() == 0 ==> r is None && final(self).remaining() == old(
                self,
            ).remaining(),
            old(self).remaining().len() > 0 ==> (r matches Some(n) && *n == old(
                self,
            ).remaining()[0] && well_formed(*n)) && final(self).remaining() == old(
                self,
            ).remaining().drop_first(),
    {
        if self.pos == self.nodes.len() {
            return None;
        }
        proof {
            lemma_well_formed_at(self.nodes@, self.pos as int);
        }
        let n = &self.nodes[self.pos];
        self.pos = self.pos + 1;
        self.pending = true;
        assert(self.remaining() =~= old(self).remaining().drop_first());
        Some(n)
    }

    /// Hands out the value node of the key just handed out.
    pub fn next_value_node(&mut self) -> (r: &'a Node)
        requires
            old(self).wf(),
            old(self).pending(),
        ensures
            final(self).wf(),
            !final(self).pending(),
            old(self).remaining().len() > 0,
            *r == old(self).remaining()[0],
            well_formed(*r),
            final(self).remaining() == old(self).remaining().drop_first(),
    {
        proof {
            lemma_well_formed_at(self.nodes@, self.pos as int);
        }
        let n = &self.nodes[self.pos];
        self.pos = self.pos + 1;
        self.pending = false;
        assert(self.remaining() =~= old(self).remaining().drop_first());
        n
    }
}

/// What a variant carries after its tag has been read: the payload node of
/// the tagged-object form, or nothing for the bare form.
pub struct VariantAccess<'a> {
    payload: Option<&'a Node>,
}

impl<'a> VariantAccess<'a> {
    pub closed spec fn payload(&self) -> Option<Node> {
        match self.payload {
            Some(p) => Some(*p),
            None => None,
        }
    }

    pub closed spec fn wf(&self) -> bool {
        self.payload matches Some(p) ==> well_formed(*p)
    }

    /// A variant without payload; any stored payload is ignored.
    pub fn unit_variant(self) -> (r: Result<(), DecodeError>)
        ensures
            r is Ok,
    {
        Ok(())
    }

    /// Decodes the single payload as `shape`.
    pub fn newtype_variant(self, shape: Shape) -> (r: Result<Value, DecodeError>)
        requires
            self.wf(),
        ensures
            self.payload() is None ==> r == Err::<Value, DecodeError>(DecodeError::MissingPayload),
            self.payload() matches Some(p) ==> agrees(r, shape_result(p, shape)),
    {
        match self.payload {
            Some(p) => decode(p, shape),
            None => Err(DecodeError::MissingPayload),
        }
    }

    /// The single payload node, for the caller to decode in a shape of its own.
    pub fn newtype_node(self) -> (r: Result<&'a Node, DecodeError>)
        requires
            self.wf(),
        ensures
            self.payload() is None ==> (r matches Err(e) && e == DecodeError::MissingPayload),
            self.payload() matches Some(p) ==> (r matches Ok(n) && *n == p && well_formed(*n)),
    {
        match self.payload {
            Some(p) => Ok(p),
            None => Err(DecodeError::MissingPayload),
        }
    }

    /// The elements of a payload that must be an array.
    pub fn tuple_variant(self) -> (r: Result<SeqAccess<'a>, DecodeError>)
        requires
            self.wf(),
        ensures
            self.payload() is None ==> (r matches Err(e) && e == DecodeError::MissingPayload),
            self.payload() matches Some(p) ==> if p.kind == Kind::Array {
                r matches Ok(a) && a.wf() && a.remaining() == p.children@
            } else {
                r matches Err(e) && e == DecodeError::NotATuple
            },
    {
        match self.payload {
            Some(p) => if p.kind == Kind::Array {
                Ok(SeqAccess::new(p))
            } else {
                Err(DecodeError::NotATuple)
            },
            None => Err(DecodeError::MissingPayload),
        }
    }

    /// The members of a payload that must be an object.
    pub fn struct_variant(self) -> (r: Result<MapAccess<'a>, DecodeError>)
        requires
            self.wf(),
        ensures
            self.payload() is None ==> (r matches Err(e) && e == DecodeError::MissingPayload),
            self.payload() matches Some(p) ==> if p.kind == Kind::Object {
                r matches Ok(m) && m.wf() && m.remaining() == p.children@ && !m.pending()
            } else {
                r matches Err(e) && e == DecodeError::NotAStruct
            },
    {
        match self.payload {
            Some(p) => if p.kind == Kind::Object {
                Ok(MapAccess::new(p))
            } else {
                Err(DecodeError::NotAStruct)
            },
            None => Err(DecodeError::MissingPayload),
        }
    }
}

/// The tag of a variant and what it carries, as a node gives them: a string
/// is a tag without payload; an object with members has its first key as the
/// tag and that key's value as the payload; anything else is `NotAnEnum`.
pub open spec fn variant_model(n: Node) -> Result<(Seq<char>, Option<Node>), DecodeError> {
    if n.kind == Kind::Str {
        match string_model(n.children@) {
            Some(t) => Ok((t, None)),
            None => Err(DecodeError::InvalidCodepoint),
        }
    } else if n.kind == Kind::Object && n.children.len() > 0 {
        match string_model(n.children@[0].children@) {
            Some(t) => Ok((t, Some(n.children@[1]))),
            None => Err(DecodeError::InvalidCodepoint),
        }
    } else {
        Err(DecodeError::NotAnEnum)
    }
}

/// Reads which alternative a node stands for; see [`variant_model`].
pub fn variant_access<'a>(node: &'a Node) -> (r: Result<(String, VariantAccess<'a>), DecodeError>)
    requires
        well_formed(*node),
    ensures
        match (r, variant_model(*node)) {
            (Ok((t, v)), Ok((mt, mp))) => t@ == mt && v.payload() == mp && v.wf(),
            (Err(e), Err(f)) => e == f,
            _ => false,
        },
{
    if node.kind == Kind::Str {
        match parse_string(node) {
            Ok(t) => Ok((t, VariantAccess { payload: None })),
            Err(e) => Err(e),
        }
    } else if node.kind == Kind::Object && node.children.len() > 0 {
        proof {
            lemma_well_formed_at(node.children@, 0);
            lemma_well_formed_at(node.children@, 1);
        }
        let key = &node.children[0];
        match parse_string(key) {
            Ok(t) => Ok((t, VariantAccess { payload: Some(&node.children[1]) })),
            Err(e) => Err(e),
        }
    } else {
        Err(DecodeError::NotAnEnum)
    }
}

} // verus!
