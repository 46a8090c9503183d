//! Functions as the runtime sees them: signatures, the place of their
//! instructions, flags, and the swizzles that reorder the stack.

use vstd::prelude::*;
use vstd::string::StringExecFns;
use ecow::EcoVec;
use crate::text::{decimal, decimal_string, hex, hex_string, push_char};

verus! {

/// The vector type of the `ecow` crate, whose clones share one buffer until
/// one of them is written to.
#[verifier::external_type_specification]
#[verifier::external_body]
#[verifier::reject_recursive_types(T)]
pub struct ExEcoVec<T>(EcoVec<T>);

/// The bytes that a vector of bytes holds.
pub uninterp spec fn eco_bytes(v: EcoVec<u8>) -> Seq<u8>;

/// The flags that a vector of flags holds.
pub uninterp spec fn eco_flags(v: EcoVec<bool>) -> Seq<bool>;

/// The signed bytes that a vector of signed bytes holds.
pub uninterp spec fn eco_offsets(v: EcoVec<i8>) -> Seq<i8>;

/// `EcoVec::len` on bytes: the number of bytes held.
#[verifier::external_body]
fn bytes_len(v: &EcoVec<u8>) -> (n: usize)
    ensures
        n == eco_bytes(*v).len(),
{
    v.len()
}

/// `EcoVec::as_slice` on bytes, read at one place: the byte held there.
#[verifier::external_body]
fn byte_at(v: &EcoVec<u8>, i: usize) -> (b: u8)
    requires
        i < eco_bytes(*v).len(),
    ensures
        b == eco_bytes(*v)[i as int],
{
    v.as_slice()[i]
}

/// `EcoVec::from` on a vector of bytes: the same bytes in the same order.
#[verifier::external_body]
fn bytes_from(v: Vec<u8>) -> (e: EcoVec<u8>)
    ensures
        eco_bytes(e) == v@,
{
    EcoVec::from(v)
}

/// `EcoVec::clone` on flags: the same flags in the same order.
#[verifier::external_body]
fn flags_clone(v: &EcoVec<bool>) -> (e: EcoVec<bool>)
    ensures
        eco_flags(e) == eco_flags(*v),
{
    v.clone()
}

/// `EcoVec::len` on flags: the number of flags held.
#[verifier::external_body]
fn flags_len(v: &EcoVec<bool>) -> (n: usize)
    ensures
        n == eco_flags(*v).len(),
{
    v.len()
}

/// `EcoVec::as_slice` on flags, read at one place: the flag held there.
#[verifier::external_body]
fn flag_at(v: &EcoVec<bool>, i: usize) -> (b: bool)
    requires
        i < eco_flags(*v).len(),
    ensures
        b == eco_flags(*v)[i as int],
{
    v.as_slice()[i]
}

/// `EcoVec::as_slice` on signed bytes, read at one place: the signed byte
/// held there.
#[verifier::external_body]
fn offset_at(v: &EcoVec<i8>, i: usize) -> (b: i8)
    requires
        i < eco_offsets(*v).len(),
    ensures
        b == eco_offsets(*v)[i as int],
{
    v.as_slice()[i]
}

/// `EcoVec::len` on signed bytes: the number of them held.
#[verifier::external_body]
fn offsets_len(v: &EcoVec<i8>) -> (n: usize)
    ensures
        n == eco_offsets(*v).len(),
{
    v.len()
}

/// A kind of temporary stack.
#[derive(Clone, Copy, Debug, PartialEq, Eq, PartialOrd, Ord, Hash)]
pub enum TempStack {
    /// Holds the values that are needed to undo a function.
    Under,
    /// Used when some functions are inlined.
    Inline,
}

impl TempStack {
    /// The name of the stack.
    pub fn name(&self) -> (name: String)
        ensures
            name@ == (match *self {
                TempStack::Under => "under"@,
                TempStack::Inline => "inline"@,
            }),
    {
        match self {
            TempStack::Under => String::from_str("under"),
            TempStack::Inline => String::from_str("inline"),
        }
    }
}

/// How far an operation reaches into its environment.
#[derive(Clone, Copy, Debug, PartialEq, Eq, PartialOrd, Ord)]
pub enum Purity {
    /// The operation visibly affects the environment.
    Mutating,
    /// The operation reads from the environment but does not affect it.
    Impure,
    /// The operation is completely pure.
    Pure,
}

/// A stack signature: how many values a function takes from the stack and
/// how many it leaves.
#[derive(Clone, Copy, Debug, PartialEq, Eq, PartialOrd, Ord, Hash, Structural)]
pub struct Signature {
    /// The number of arguments the function pops off the stack.
    pub args: usize,
    /// The number of values the function pushes onto the stack.
    pub outputs: usize,
}

impl Signature {
    /// Whether two signatures change the height of the stack by the same
    /// amount.
    pub open spec fn compatible(self, other: Signature) -> bool {
        self.args - self.outputs == other.args - other.outputs
    }

    /// The signature of `other` followed by `self`.
    pub open spec fn composed(self, other: Signature) -> Signature {
        Signature {
            args: (other.args + if self.args >= other.outputs {
                self.args - other.outputs
            } else {
                0
            }) as usize,
            outputs: (self.outputs + if other.outputs >= self.args {
                other.outputs - self.args
            } else {
                0
            }) as usize,
        }
    }

    /// Whether the machine word holds both numbers of the signature of
    /// `other` followed by `self`.
    pub open spec fn composes(self, other: Signature) -> bool {
        &&& other.args + (if self.args >= other.outputs {
            self.args - other.outputs
        } else {
            0
        }) <= usize::MAX
        &&& self.outputs + (if other.outputs >= self.args {
            other.outputs - self.args
        } else {
            0
        }) <= usize::MAX
    }

    /// The signature in full: a bar, the number of arguments, a dot, and
    /// the number of outputs.
    pub open spec fn full_text(self) -> Seq<char> {
        "|"@ + decimal(self.args as nat) + "."@ + decimal(self.outputs as nat)
    }

    /// The signature in short: without the dot and the number of outputs
    /// where one value is left.
    pub open spec fn short_text(self) -> Seq<char> {
        if self.outputs == 1 {
            "|"@ + decimal(self.args as nat)
        } else {
            self.full_text()
        }
    }

    /// Writes the signature in full.
    pub fn debug_text(&self) -> (text: String)
        ensures
            text@ == self.full_text(),
    {
        let mut text = String::from_str("|");
        let args = decimal_string(self.args);
        text.append(args.as_str());
        text.append(".");
        let outputs = decimal_string(self.outputs);
        text.append(outputs.as_str());
        text
    }

    /// Writes the signature in short.
    pub fn text(&self) -> (text: String)
        ensures
            text@ == self.short_text(),
    {
        if self.outputs == 1 {
            let mut text = String::from_str("|");
            let args = decimal_string(self.args);
            text.append(args.as_str());
            text
        } else {
            self.debug_text()
        }
    }

    /// Makes a signature of a number of arguments and of outputs.
    pub fn new(args: usize, outputs: usize) -> (sig: Signature)
        ensures
            sig == (Signature { args, outputs }),
    {
        Signature { args, outputs }
    }

    /// Whether this signature changes the height of the stack by the same
    /// amount as another.
    pub fn is_compatible_with(self, other: Signature) -> (same: bool)
        ensures
            same == self.compatible(other),
    {
        (self.args >= self.outputs) == (other.args >= other.outputs) && if self.args
            >= self.outputs {
            self.args - self.outputs == other.args - other.outputs
        } else {
            self.outputs - self.args == other.outputs - other.args
        }
    }

    /// Whether this signature is compatible with another and has at least
    /// as many arguments.
    pub fn is_superset_of(self, other: Signature) -> (yes: bool)
        ensures
            yes == (self.compatible(other) && self.args >= other.args),
    {
        self.is_compatible_with(other) && self.args >= other.args
    }

    /// Whether this signature is compatible with another and has at most as
    /// many arguments.
    pub fn is_subset_of(self, other: Signature) -> (yes: bool)
        ensures
            yes == (self.compatible(other) && self.args <= other.args),
    {
        self.is_compatible_with(other) && self.args <= other.args
    }

    /// The signature with the larger number of arguments and the larger
    /// number of outputs of two.
    pub fn max_with(self, other: Signature) -> (sig: Signature)
        ensures
            sig.args == (if self.args >= other.args {
                self.args
            } else {
                other.args
            }),
            sig.outputs == (if self.outputs >= other.outputs {
                self.outputs
            } else {
                other.outputs
            }),
    {
        Signature {
            args: if self.args >= other.args { self.args } else { other.args },
            outputs: if self.outputs >= other.outputs { self.outputs } else { other.outputs },
        }
    }

    /// The signature of a function with the signature `other` called before
    /// a function with this signature.
    pub fn compose(self, other: Signature) -> (sig: Signature)
        requires
            self.composes(other),
        ensures
            sig == self.composed(other),
    {
        let args: usize = other.args + self.args.saturating_sub(other.outputs);
        let outputs: usize = self.outputs + other.outputs.saturating_sub(self.args);
        Signature { args, outputs }
    }

    /// The signature with arguments and outputs exchanged.
    pub fn inverse(self) -> (sig: Signature)
        ensures
            sig == (Signature { args: self.outputs, outputs: self.args }),
    {
        Signature { args: self.outputs, outputs: self.args }
    }
}

impl From<(usize, usize)> for Signature {
    fn from(pair: (usize, usize)) -> (sig: Signature) {
        Signature { args: pair.0, outputs: pair.1 }
    }
}

impl vstd::std_specs::convert::FromSpecImpl<(usize, usize)> for Signature {
    open spec fn obeys_from_spec() -> bool {
        true
    }

    open spec fn from_spec(pair: (usize, usize)) -> Signature {
        Signature { args: pair.0, outputs: pair.1 }
    }
}

impl From<Signature> for (usize, usize) {
    fn from(sig: Signature) -> (pair: (usize, usize)) {
        (sig.args, sig.outputs)
    }
}

impl vstd::std_specs::convert::FromSpecImpl<Signature> for (usize, usize) {
    open spec fn obeys_from_spec() -> bool {
        true
    }

    open spec fn from_spec(sig: Signature) -> (usize, usize) {
        (sig.args, sig.outputs)
    }
}

impl PartialEq<(usize, usize)> for Signature {
    fn eq(&self, other: &(usize, usize)) -> (same: bool) {
        self.args == other.0 && self.outputs == other.1
    }
}

impl vstd::std_specs::cmp::PartialEqSpecImpl<(usize, usize)> for Signature {
    open spec fn obeys_eq_spec() -> bool {
        true
    }

    open spec fn eq_spec(&self, other: &(usize, usize)) -> bool {
        self.args == other.0 && self.outputs == other.1
    }
}

/// The inverse of the inverse of a signature is the signature.
pub proof fn lemma_signature_inverse_twice(sig: Signature)
    ensures
        (Signature {
            args: (Signature { args: sig.outputs, outputs: sig.args }).outputs,
            outputs: (Signature { args: sig.outputs, outputs: sig.args }).args,
        }) == sig,
{
}

/// Composing with a signature that takes and leaves nothing changes nothing.
pub proof fn lemma_compose_identity(sig: Signature)
    ensures
        sig.composed(Signature { args: 0, outputs: 0 }) == sig,
        (Signature { args: 0, outputs: 0 }).composed(sig) == sig,
{
}

/// A range of compiled instructions.
#[derive(Clone, Copy, Debug, PartialEq, Eq, PartialOrd, Ord, Hash, Structural)]
pub struct FuncSlice {
    pub start: usize,
    pub len: usize,
}

impl Default for FuncSlice {
    /// The range of no instruction at the start.
    fn default() -> (slice: FuncSlice)
        ensures
            slice == (FuncSlice { start: 0, len: 0 }),
    {
        FuncSlice { start: 0, len: 0 }
    }
}

impl From<(usize, usize)> for FuncSlice {
    fn from(pair: (usize, usize)) -> (slice: FuncSlice) {
        FuncSlice { start: pair.0, len: pair.1 }
    }
}

impl vstd::std_specs::convert::FromSpecImpl<(usize, usize)> for FuncSlice {
    open spec fn obeys_from_spec() -> bool {
        true
    }

    open spec fn from_spec(pair: (usize, usize)) -> FuncSlice {
        FuncSlice { start: pair.0, len: pair.1 }
    }
}

impl From<FuncSlice> for (usize, usize) {
    fn from(slice: FuncSlice) -> (pair: (usize, usize)) {
        (slice.start, slice.len)
    }
}

impl vstd::std_specs::convert::FromSpecImpl<FuncSlice> for (usize, usize) {
    open spec fn obeys_from_spec() -> bool {
        true
    }

    open spec fn from_spec(slice: FuncSlice) -> (usize, usize) {
        (slice.start, slice.len)
    }
}

impl FuncSlice {
    /// The number of instructions.
    pub fn len(&self) -> (len: usize)
        ensures
            len == self.len,
    {
        self.len
    }

    /// Whether there are no instructions.
    pub fn is_empty(&self) -> (empty: bool)
        ensures
            empty == (self.len == 0),
    {
        self.len == 0
    }

    /// The place after the last instruction.
    pub fn end(&self) -> (end: usize)
        requires
            self.start + self.len <= usize::MAX,
        ensures
            end == self.start + self.len,
    {
        self.start + self.len
    }

    /// Moves the range up by `by` places.
    pub fn add_assign(&mut self, by: usize)
        requires
            old(self).start + by <= usize::MAX,
        ensures
            *final(self) == (FuncSlice {
                start: (old(self).start + by) as usize,
                len: old(self).len,
            }),
    {
        self.start = self.start + by;
    }

    /// The range moved up by `by` places.
    pub fn add(self, by: usize) -> (moved: FuncSlice)
        requires
            self.start + by <= usize::MAX,
        ensures
            moved == (FuncSlice { start: (self.start + by) as usize, len: self.len }),
    {
        FuncSlice { start: self.start + by, len: self.len }
    }
}

/// The flags of a function, one bit each.
#[derive(Clone, Copy, Debug, PartialEq, Eq)]
pub struct FunctionFlags {
    pub bits: u8,
}

/// The bit of the flag of a function that calls itself.
pub const RECURSIVE: u8 = 1;

/// The bit of the flag of a function that must not be inlined.
pub const NO_INLINE: u8 = 2;

/// The bit of the flag of a function whose errors are reported at the caller.
pub const TRACK_CALLER: u8 = 4;

/// The bit of the flag of a function that must not be evaluated ahead of time.
pub const NO_PRE_EVAL: u8 = 8;

impl Default for FunctionFlags {
    /// No flag set.
    fn default() -> (flags: FunctionFlags)
        ensures
            flags.bits == 0,
    {
        FunctionFlags { bits: 0 }
    }
}

impl FunctionFlags {
    /// The flags that are set in either of two.
    pub fn bitor(self, rhs: FunctionFlags) -> (flags: FunctionFlags)
        ensures
            flags.bits == self.bits | rhs.bits,
    {
        FunctionFlags { bits: self.bits | rhs.bits }
    }

    /// Sets the flags that are set in `rhs` as well.
    pub fn bitor_assign(&mut self, rhs: FunctionFlags)
        ensures
            final(self).bits == old(self).bits | rhs.bits,
    {
        self.bits = self.bits | rhs.bits;
    }

    /// The flags that are set in both of two.
    pub fn bitand(self, rhs: FunctionFlags) -> (flags: FunctionFlags)
        ensures
            flags.bits == self.bits & rhs.bits,
    {
        FunctionFlags { bits: self.bits & rhs.bits }
    }

    /// Whether the function calls itself.
    pub fn recursive(&self) -> (set: bool)
        ensures
            set == (self.bits & RECURSIVE != 0),
    {
        self.bits & RECURSIVE != 0
    }

    /// Whether the function must not be inlined.
    pub fn no_inline(&self) -> (set: bool)
        ensures
            set == (self.bits & NO_INLINE != 0),
    {
        self.bits & NO_INLINE != 0
    }

    /// Whether errors are reported at the caller.
    pub fn tracks_caller(&self) -> (set: bool)
        ensures
            set == (self.bits & TRACK_CALLER != 0),
    {
        self.bits & TRACK_CALLER != 0
    }

    /// Whether the function must not be evaluated ahead of time.
    pub fn no_pre_eval(&self) -> (set: bool)
        ensures
            set == (self.bits & NO_PRE_EVAL != 0),
    {
        self.bits & NO_PRE_EVAL != 0
    }
}

/// A flag that is set in either of two sets of flags is set in their union.
pub proof fn lemma_flags_union(a: u8, b: u8, flag: u8)
    ensures
        ((a | b) & flag != 0) == ((a & flag != 0) || (b & flag != 0)),
{
    assert(((a | b) & flag != 0) == ((a & flag != 0) || (b & flag != 0))) by (bit_vector);
}

/// A stretch of source text, by the places of its first and last byte.
#[derive(Clone, Copy, Debug, PartialEq, Eq, PartialOrd, Ord, Hash, Structural)]
pub struct CodeSpan {
    pub start: usize,
    pub end: usize,
}

/// The primitives that the engine tells apart.
#[derive(Clone, Copy, Debug, PartialEq, Eq, PartialOrd, Ord, Hash, Structural)]
pub enum Primitive {
    Lt,
    Le,
    Gt,
    Ge,
    Ne,
    /// Any other primitive, by its number.
    Other(u16),
}

/// What a function is known by.
#[derive(Clone, Copy, Debug, PartialEq, Eq, PartialOrd, Ord, Hash, Structural)]
pub enum FunctionId {
    /// Just a primitive.
    Primitive(Primitive),
    /// A named function, by the number of its name.
    Named(usize),
    /// An anonymous function.
    Anonymous(CodeSpan),
    /// A macro expansion.
    Macro(CodeSpan),
    /// The top-level function.
    Main,
    /// A function without a name of any kind.
    Unnamed,
}

impl From<usize> for FunctionId {
    fn from(name: usize) -> (id: FunctionId) {
        FunctionId::Named(name)
    }
}

impl vstd::std_specs::convert::FromSpecImpl<usize> for FunctionId {
    open spec fn obeys_from_spec() -> bool {
        true
    }

    open spec fn from_spec(name: usize) -> FunctionId {
        FunctionId::Named(name)
    }
}

impl From<Primitive> for FunctionId {
    fn from(op: Primitive) -> (id: FunctionId) {
        FunctionId::Primitive(op)
    }
}

impl vstd::std_specs::convert::FromSpecImpl<Primitive> for FunctionId {
    open spec fn obeys_from_spec() -> bool {
        true
    }

    open spec fn from_spec(op: Primitive) -> FunctionId {
        FunctionId::Primitive(op)
    }
}

impl From<CodeSpan> for FunctionId {
    fn from(span: CodeSpan) -> (id: FunctionId) {
        FunctionId::Anonymous(span)
    }
}

impl vstd::std_specs::convert::FromSpecImpl<CodeSpan> for FunctionId {
    open spec fn obeys_from_spec() -> bool {
        true
    }

    open spec fn from_spec(span: CodeSpan) -> FunctionId {
        FunctionId::Anonymous(span)
    }
}

impl FunctionId {
    /// The stretch of source text that the function comes from, if it has one.
    pub fn span(&self) -> (span: Option<CodeSpan>)
        ensures
            span == (match *self {
                FunctionId::Anonymous(s) => Some(s),
                FunctionId::Macro(s) => Some(s),
                _ => None,
            }),
    {
        match self {
            FunctionId::Anonymous(s) => Some(*s),
            FunctionId::Macro(s) => Some(*s),
            _ => None,
        }
    }
}

/// A function of the language. Two functions are the same where they are
/// known by the same, have their instructions at the same place, and have
/// the same hash.
#[derive(Clone, Copy, Debug)]
pub struct Function {
    pub id: FunctionId,
    pub signature: Signature,
    pub slice: FuncSlice,
    pub hash: u64,
    pub flags: FunctionFlags,
}

impl PartialEq for Function {
    fn eq(&self, other: &Self) -> (same: bool) {
        self.id == other.id && self.slice == other.slice && self.hash == other.hash
    }
}

impl Eq for Function {

}

impl vstd::std_specs::cmp::PartialEqSpecImpl for Function {
    open spec fn obeys_eq_spec() -> bool {
        true
    }

    open spec fn eq_spec(&self, other: &Self) -> bool {
        self.id == other.id && self.slice == other.slice && self.hash == other.hash
    }
}

impl Default for Function {
    /// The function without a name, instructions or flags, that takes and
    /// leaves nothing.
    fn default() -> (f: Function)
        ensures
            f == (Function {
                id: FunctionId::Unnamed,
                signature: Signature { args: 0, outputs: 0 },
                slice: FuncSlice { start: 0, len: 0 },
                hash: 0,
                flags: FunctionFlags { bits: 0 },
            }),
    {
        Function {
            id: FunctionId::Unnamed,
            signature: Signature { args: 0, outputs: 0 },
            slice: FuncSlice { start: 0, len: 0 },
            hash: 0,
            flags: FunctionFlags { bits: 0 },
        }
    }
}

impl Function {
    /// Makes a function without flags.
    pub fn new(id: FunctionId, signature: Signature, slice: FuncSlice, hash: u64) -> (f: Function)
        ensures
            f == (Function { id, signature, slice, hash, flags: FunctionFlags { bits: 0 } }),
    {
        Function { id, signature, slice, hash, flags: FunctionFlags { bits: 0 } }
    }

    /// The function with other flags.
    pub fn with_flags(self, flags: FunctionFlags) -> (f: Function)
        ensures
            f == (Function { flags, ..self }),
    {
        Function {
            id: self.id,
            signature: self.signature,
            slice: self.slice,
            hash: self.hash,
            flags,
        }
    }

    /// The signature of the function.
    pub fn signature(&self) -> (sig: Signature)
        ensures
            sig == self.signature,
    {
        self.signature
    }

    /// Whether the function calls itself.
    pub fn is_recursive(&self) -> (yes: bool)
        ensures
            yes == (self.flags.bits & RECURSIVE != 0),
    {
        self.flags.recursive()
    }

    /// The place of the function's instructions.
    pub fn slice(&self) -> (slice: FuncSlice)
        ensures
            slice == self.slice,
    {
        self.slice
    }

    /// The primitive that the function is, if it is known as one.
    pub fn as_primitive(&self) -> (prim: Option<Primitive>)
        ensures
            prim == (match self.id {
                FunctionId::Primitive(p) => Some(p),
                _ => None,
            }),
    {
        match self.id {
            FunctionId::Primitive(p) => Some(p),
            _ => None,
        }
    }
}

/// A function that runs code of the host, found by a number.
#[derive(Clone, Copy, Debug, PartialEq, Eq, PartialOrd, Ord, Hash)]
pub struct DynamicFunction {
    pub index: usize,
    pub signature: Signature,
}

impl From<(usize, Signature)> for DynamicFunction {
    fn from(pair: (usize, Signature)) -> (f: DynamicFunction) {
        DynamicFunction { index: pair.0, signature: pair.1 }
    }
}

impl vstd::std_specs::convert::FromSpecImpl<(usize, Signature)> for DynamicFunction {
    open spec fn obeys_from_spec() -> bool {
        true
    }

    open spec fn from_spec(pair: (usize, Signature)) -> DynamicFunction {
        DynamicFunction { index: pair.0, signature: pair.1 }
    }
}

impl From<DynamicFunction> for (usize, Signature) {
    fn from(f: DynamicFunction) -> (pair: (usize, Signature)) {
        (f.index, f.signature)
    }
}

impl vstd::std_specs::convert::FromSpecImpl<DynamicFunction> for (usize, Signature) {
    open spec fn obeys_from_spec() -> bool {
        true
    }

    open spec fn from_spec(f: DynamicFunction) -> (usize, Signature) {
        (f.index, f.signature)
    }
}

impl DynamicFunction {
    /// The function as text: its number to the base sixteen, marked as
    /// dynamic.
    pub fn text(&self) -> (text: String)
        ensures
            text@ == "<dynamic#"@ + hex(self.index as nat) + ">"@,
    {
        let mut text = String::from_str("<dynamic#");
        let number = hex_string(self.index);
        text.append(number.as_str());
        text.append(">");
        text
    }

    /// The signature of the function.
    pub fn signature(&self) -> (sig: Signature)
        ensures
            sig == self.signature,
    {
        self.signature
    }
}

/// The largest of the bytes up to place `n`, and zero for none.
pub open spec fn largest(s: Seq<u8>, n: int) -> int
    decreases n,
{
    if n <= 0 {
        0
    } else {
        let before = largest(s, n - 1);
        if s[n - 1] > before {
            s[n - 1] as int
        } else {
            before
        }
    }
}

/// The number of stack values that a swizzle with these indices reads: one
/// more than the largest index, and none without indices.
pub open spec fn swizzle_args(s: Seq<u8>) -> int {
    if s.len() == 0 {
        0
    } else {
        largest(s, s.len() as int) + 1
    }
}

/// Whether no byte occurs twice.
pub open spec fn distinct(s: Seq<u8>) -> bool {
    forall|i: int, j: int| 0 <= i < j < s.len() ==> s[i] != s[j]
}

/// The largest byte is at least each byte.
pub proof fn lemma_largest_bounds(s: Seq<u8>, n: int, i: int)
    requires
        0 <= i < n <= s.len(),
    ensures
        s[i] <= largest(s, n) <= 255,
    decreases n,
{
    assert(largest(s, 0) == 0);
    if i < n - 1 {
        lemma_largest_bounds(s, n - 1, i);
    } else if n - 1 > 0 {
        lemma_largest_bounds(s, n - 1, 0);
    }
}

/// The capital of a small letter of the alphabet, and any other byte as
/// it is.
pub open spec fn capital(c: u8) -> u8 {
    if 97 <= c <= 122 {
        (c - 32) as u8
    } else {
        c
    }
}

/// The letter that stands for the stack value of an index: the letter at
/// that place of the alphabet, its capital for a fixed value.
pub open spec fn stack_letter(i: u8, fix: bool) -> char {
    let c = (97 + i) as u8;
    (if fix {
        capital(c)
    } else {
        c
    }) as char
}

/// The letter that stands for the array element of an index: the letter
/// at that place of the alphabet, counted from the end for an index below
/// zero, its capital for an element that is unboxed.
pub open spec fn array_letter(i: i8, unbox: bool) -> char {
    let c = if i < 0 {
        (123 + i) as u8
    } else {
        (97 + i) as u8
    };
    (if unbox {
        capital(c)
    } else {
        c
    }) as char
}

/// The letters of a stack swizzle, one for each index that has a flag.
pub open spec fn stack_letters(indices: Seq<u8>, fix: Seq<bool>, n: nat) -> Seq<char> {
    Seq::new(n, |p: int| stack_letter(indices[p], fix[p]))
}

/// The letters of an array swizzle, one for each index that has a flag.
pub open spec fn array_letters(indices: Seq<i8>, unbox: Seq<bool>, n: nat) -> Seq<char> {
    Seq::new(n, |p: int| array_letter(indices[p], unbox[p]))
}

/// The smaller of two lengths.
pub open spec fn shorter(a: nat, b: nat) -> nat {
    if a <= b {
        a
    } else {
        b
    }
}

fn to_capital(c: u8) -> (up: u8)
    ensures
        up == capital(c),
{
    if 97 <= c && c <= 122 {
        c - 32
    } else {
        c
    }
}

/// Whether the indices `inv` undo the indices `s`: they are as many, and
/// the stack value that `s` takes to a place is taken back from there.
pub open spec fn undoes(s: Seq<u8>, inv: Seq<u8>) -> bool {
    inv.len() == s.len() && forall|i: int| 0 <= i < s.len() ==> inv[#[trigger] s[i] as int] == i
}

/// What undoes the indices that undo a swizzle are the indices of the
/// swizzle.
pub proof fn lemma_inverse_twice(s: Seq<u8>, inv: Seq<u8>, back: Seq<u8>)
    requires
        forall|i: int| 0 <= i < s.len() ==> s[i] < s.len(),
        undoes(s, inv),
        undoes(inv, back),
    ensures
        back == s,
{
    assert forall|i: int| 0 <= i < s.len() implies back[i] == s[i] by {
        let j = s[i] as int;
        assert(inv[j] == i);
        assert(back[inv[j] as int] == j);
    }
    assert(back =~= s);
}

/// Among more numbers than `m`, all of them below `m`, two are the same.
pub proof fn lemma_two_the_same(t: Seq<int>, m: nat)
    requires
        t.len() > m,
        forall|i: int| 0 <= i < t.len() ==> 0 <= #[trigger] t[i] < m,
    ensures
        exists|i: int, j: int| 0 <= i < j < t.len() && t[i] == t[j],
    decreases m,
{
    if m == 0 {
        let first = t[0];
        assert(0 <= first < m);
    } else if exists|p: int| 0 <= p < t.len() && t[p] == m - 1 {
        let p = choose|p: int| 0 <= p < t.len() && t[p] == m - 1;
        if exists|q: int| 0 <= q < t.len() && q != p && t[q] == m - 1 {
            let q = choose|q: int| 0 <= q < t.len() && q != p && t[q] == m - 1;
            if p < q {
                assert(0 <= p < q < t.len() && t[p] == t[q]);
            } else {
                assert(0 <= q < p < t.len() && t[q] == t[p]);
            }
        } else {
            let u = t.remove(p);
            assert forall|i: int| 0 <= i < u.len() implies 0 <= #[trigger] u[i] < m - 1 by {
                if i < p {
                    assert(u[i] == t[i]);
                } else {
                    assert(u[i] == t[i + 1]);
                }
            }
            lemma_two_the_same(u, (m - 1) as nat);
            let (i, j) = choose|i: int, j: int| 0 <= i < j < u.len() && u[i] == u[j];
            let x = if i < p {
                i
            } else {
                i + 1
            };
            let y = if j < p {
                j
            } else {
                j + 1
            };
            assert(0 <= x < y < t.len() && t[x] == t[y]);
        }
    } else {
        assert forall|i: int| 0 <= i < t.len() implies 0 <= #[trigger] t[i] < m - 1 by {
            assert(t[i] != m - 1);
        }
        lemma_two_the_same(t, (m - 1) as nat);
    }
}

/// Indices that are all different and all below their number take every
/// place: each place is the index of some stack value.
pub proof fn lemma_every_place_taken(s: Seq<u8>, j: int)
    requires
        distinct(s),
        forall|i: int| 0 <= i < s.len() ==> s[i] < s.len(),
        0 <= j < s.len(),
    ensures
        exists|i: int| 0 <= i < s.len() && s[i] == j,
{
    if !exists|i: int| 0 <= i < s.len() && s[i] == j {
        let t = Seq::new(
            s.len(),
            |i: int|
                if s[i] > j {
                    s[i] - 1
                } else {
                    s[i] as int
                },
        );
        assert forall|i: int| 0 <= i < t.len() implies 0 <= #[trigger] t[i] < s.len() - 1 by {
            assert(s[i] != j);
        }
        lemma_two_the_same(t, (s.len() - 1) as nat);
        let (a, b) = choose|a: int, b: int| 0 <= a < b < t.len() && t[a] == t[b];
        assert(s[a] != j && s[b] != j);
        assert(s[a] == s[b]);
    }
}

/// The largest of the bytes up to a place is no more than a number that
/// none of them is more than.
pub proof fn lemma_largest_below(s: Seq<u8>, n: int, bound: int)
    requires
        0 <= n <= s.len(),
        0 <= bound,
        forall|i: int| 0 <= i < n ==> s[i] <= bound,
    ensures
        largest(s, n) <= bound,
    decreases n,
{
    if n > 0 {
        lemma_largest_below(s, n - 1, bound);
    }
}

/// The indices that undo a swizzle can be undone themselves, and the
/// indices of the swizzle undo them.
pub proof fn lemma_inverse_has_inverse(s: Seq<u8>, inv: Seq<u8>)
    requires
        distinct(s),
        swizzle_args(s) == s.len(),
        undoes(s, inv),
    ensures
        distinct(inv),
        swizzle_args(inv) == inv.len(),
        undoes(inv, s),
{
    let n = s.len() as int;
    if n > 0 {
        assert forall|i: int| 0 <= i < n implies s[i] < n by {
            lemma_largest_bounds(s, n, i);
        }
        assert forall|j: int| 0 <= j < n implies 0 <= inv[j] < n && s[#[trigger] inv[j] as int]
            == j by {
            lemma_every_place_taken(s, j);
            let i = choose|i: int| 0 <= i < n && s[i] == j;
            assert(inv[s[i] as int] == i);
        }
        assert forall|j: int, k: int| 0 <= j < k < n implies inv[j] != inv[k] by {
            assert(s[inv[j] as int] == j);
            assert(s[inv[k] as int] == k);
        }
        lemma_largest_below(inv, n, n - 1);
        let top = s[n - 1] as int;
        assert(inv[top] == n - 1);
        lemma_largest_bounds(inv, n, top);
    }
}

/// A swizzle of the stack: which stack value comes to which place, and
/// which of them are fixed.
#[derive(Debug, PartialEq, Eq)]
pub struct StackSwizzle {
    /// The indices of the stack values.
    pub indices: EcoVec<u8>,
    /// The fix mask.
    pub fix: EcoVec<bool>,
}

impl StackSwizzle {
    /// Whether a letter stands for each index that has a flag: none does
    /// for an index beyond 158.
    pub open spec fn lettered(&self) -> bool {
        forall|p: int|
            0 <= p < shorter(eco_bytes(self.indices).len(), eco_flags(self.fix).len())
                ==> eco_bytes(self.indices)[p] <= 158
    }

    /// Whether the swizzle can be written as text.
    pub fn is_lettered(&self) -> (yes: bool)
        ensures
            yes == self.lettered(),
    {
        let a: usize = bytes_len(&self.indices);
        let b: usize = flags_len(&self.fix);
        let n: usize = if a <= b { a } else { b };
        let mut p: usize = 0;
        while p < n
            invariant
                p <= n,
                n == shorter(eco_bytes(self.indices).len(), eco_flags(self.fix).len()),
                forall|q: int| 0 <= q < p ==> eco_bytes(self.indices)[q] <= 158,
            decreases n - p,
        {
            if byte_at(&self.indices, p) > 158 {
                return false;
            }
            p += 1;
        }
        true
    }

    /// The swizzle as text, where it can be written, as `text` gives it.
    pub fn checked_text(&self) -> (text: Option<String>)
        ensures
            text is Some <==> self.lettered(),
            text matches Some(t) ==> t@ == seq!['λ'] + stack_letters(
                eco_bytes(self.indices),
                eco_flags(self.fix),
                shorter(eco_bytes(self.indices).len(), eco_flags(self.fix).len()),
            ),
    {
        if self.is_lettered() {
            Some(self.text())
        } else {
            None
        }
    }

    /// The swizzle as text: a lambda, then the letter of each index that
    /// has a flag. No letter stands for an index beyond 158.
    pub fn text(&self) -> (text: String)
        requires
            self.lettered(),
        ensures
            text@ == seq!['λ'] + stack_letters(
                eco_bytes(self.indices),
                eco_flags(self.fix),
                shorter(eco_bytes(self.indices).len(), eco_flags(self.fix).len()),
            ),
    {
        let a: usize = bytes_len(&self.indices);
        let b: usize = flags_len(&self.fix);
        let n: usize = if a <= b { a } else { b };
        let mut text = String::from_str("λ");
        proof {
            reveal_strlit("λ");
            assert("λ"@ =~= seq!['λ']);
        }
        let mut p: usize = 0;
        assert(text@ =~= seq!['λ'] + stack_letters(
            eco_bytes(self.indices),
            eco_flags(self.fix),
            0,
        ));
        while p < n
            invariant
                p <= n,
                n == shorter(eco_bytes(self.indices).len(), eco_flags(self.fix).len()),
                forall|q: int| 0 <= q < n ==> eco_bytes(self.indices)[q] <= 158,
                text@ == seq!['λ'] + stack_letters(
                    eco_bytes(self.indices),
                    eco_flags(self.fix),
                    p as nat,
                ),
            decreases n - p,
        {
            let i: u8 = byte_at(&self.indices, p);
            let fix: bool = flag_at(&self.fix, p);
            let plain: u8 = 97 + i;
            let c: u8 = if fix { to_capital(plain) } else { plain };
            push_char(&mut text, c as char);
            p += 1;
            assert(text@ =~= seq!['λ'] + stack_letters(
                eco_bytes(self.indices),
                eco_flags(self.fix),
                p as nat,
            ));
        }
        text
    }

    /// The number of stack values that the swizzle reads.
    pub fn args(&self) -> (args: usize)
        ensures
            args == swizzle_args(eco_bytes(self.indices)),
    {
        let n: usize = bytes_len(&self.indices);
        if n == 0 {
            return 0;
        }
        let ghost s = eco_bytes(self.indices);
        let mut best: u8 = 0;
        let mut i: usize = 0;
        while i < n
            invariant
                i <= n,
                n == s.len(),
                s == eco_bytes(self.indices),
                best == largest(s, i as int),
            decreases n - i,
        {
            let b: u8 = byte_at(&self.indices, i);
            if b > best {
                best = b;
            }
            i += 1;
        }
        let args: usize = best as usize + 1;
        args
    }

    /// The signature of the swizzle.
    pub fn signature(&self) -> (sig: Signature)
        ensures
            sig.args == swizzle_args(eco_bytes(self.indices)),
            sig.outputs == eco_bytes(self.indices).len(),
    {
        Signature::new(self.args(), bytes_len(&self.indices))
    }

    /// The swizzle that undoes this one, where there is one: where every
    /// stack value that is read comes to exactly one place.
    #[verifier::rlimit(60)]
    pub fn inverse(&self) -> (inv: Option<StackSwizzle>)
        ensures
            inv is Some <==> distinct(eco_bytes(self.indices)) && swizzle_args(
                eco_bytes(self.indices),
            ) == eco_bytes(self.indices).len(),
            inv matches Some(other) ==> {
                &&& undoes(eco_bytes(self.indices), eco_bytes(other.indices))
                &&& eco_flags(other.fix) == eco_flags(self.fix)
            },
    {
        let n: usize = bytes_len(&self.indices);
        let ghost s = eco_bytes(self.indices);
        if self.args() != n {
            return None;
        }
        let mut back: Vec<u8> = Vec::new();
        let mut seen: Vec<bool> = Vec::new();
        let mut z: usize = 0;
        while z < n
            invariant
                z <= n,
                back@.len() == z,
                seen@.len() == z,
                forall|j: int| 0 <= j < z ==> !seen@[j],
            decreases n - z,
        {
            back.push(0);
            seen.push(false);
            z += 1;
        }
        assert forall|p: int| 0 <= p < n implies s[p] < n && n <= 256 by {
            lemma_largest_bounds(s, n as int, p);
        }
        let mut i: usize = 0;
        while i < n
            invariant
                i <= n,
                n == s.len(),
                n <= 256,
                s == eco_bytes(self.indices),
                swizzle_args(s) == n,
                forall|p: int| 0 <= p < n ==> s[p] < n,
                back@.len() == n,
                seen@.len() == n,
                forall|p: int, q: int| 0 <= p < q < i ==> s[p] != s[q],
                forall|j: int| 0 <= j < n ==> (seen@[j] <==> exists|p: int| 0 <= p < i && s[p] == j),
                forall|p: int| 0 <= p < i ==> back@[s[p] as int] == p,
            decreases n - i,
        {
            let b: u8 = byte_at(&self.indices, i);
            let at: usize = b as usize;
            if seen[at] {
                let ghost p = choose|p: int| 0 <= p < i && s[p] == at;
                assert(s[p] == s[i as int]);
                return None;
            }
            assert forall|p: int| 0 <= p < i implies s[p] != at by {
                if s[p] == at {
                    assert(0 <= p < i && s[p] == at);
                }
            }
            seen.set(at, true);
            back.set(at, i as u8);
            assert forall|j: int| 0 <= j < n implies (seen@[j] <==> exists|p: int|
                0 <= p < i + 1 && s[p] == j) by {
                if j == at {
                    assert(s[i as int] == j);
                } else {
                    if seen@[j] {
                        let p = choose|p: int| 0 <= p < i && s[p] == j;
                        assert(0 <= p < i + 1 && s[p] == j);
                    }
                }
            }
            i += 1;
        }
        let indices = bytes_from(back);
        let fix = flags_clone(&self.fix);
        Some(StackSwizzle { indices, fix })
    }
}

/// A swizzle of an array: which element comes to which place, and which of
/// them are unboxed.
#[derive(Debug, PartialEq, Eq)]
pub struct ArraySwizzle {
    /// The indices of the array elements.
    pub indices: EcoVec<i8>,
    /// The (un)box mask.
    pub unbox: EcoVec<bool>,
}

impl ArraySwizzle {
    /// Whether a letter stands for each index that has a flag: none does
    /// for an index below -123.
    pub open spec fn lettered(&self) -> bool {
        forall|p: int|
            0 <= p < shorter(eco_offsets(self.indices).len(), eco_flags(self.unbox).len())
                ==> eco_offsets(self.indices)[p] >= -123
    }

    /// Whether the swizzle can be written as text.
    pub fn is_lettered(&self) -> (yes: bool)
        ensures
            yes == self.lettered(),
    {
        let a: usize = offsets_len(&self.indices);
        let b: usize = flags_len(&self.unbox);
        let n: usize = if a <= b { a } else { b };
        let mut p: usize = 0;
        while p < n
            invariant
                p <= n,
                n == shorter(eco_offsets(self.indices).len(), eco_flags(self.unbox).len()),
                forall|q: int| 0 <= q < p ==> eco_offsets(self.indices)[q] >= -123,
            decreases n - p,
        {
            if offset_at(&self.indices, p) < -123 {
                return false;
            }
            p += 1;
        }
        true
    }

    /// The swizzle as text, where it can be written, as `text` gives it.
    pub fn checked_text(&self) -> (text: Option<String>)
        ensures
            text is Some <==> self.lettered(),
            text matches Some(t) ==> t@ == seq!['⋊'] + array_letters(
                eco_offsets(self.indices),
                eco_flags(self.unbox),
                shorter(eco_offsets(self.indices).len(), eco_flags(self.unbox).len()),
            ),
    {
        if self.is_lettered() {
            Some(self.text())
        } else {
            None
        }
    }

    /// The swizzle as text: its sign, then the letter of each index that
    /// has a flag. No letter stands for an index below -123.
    pub fn text(&self) -> (text: String)
        requires
            self.lettered(),
        ensures
            text@ == seq!['⋊'] + array_letters(
                eco_offsets(self.indices),
                eco_flags(self.unbox),
                shorter(eco_offsets(self.indices).len(), eco_flags(self.unbox).len()),
            ),
    {
        let a: usize = offsets_len(&self.indices);
        let b: usize = flags_len(&self.unbox);
        let n: usize = if a <= b { a } else { b };
        let mut text = String::from_str("⋊");
        proof {
            reveal_strlit("⋊");
            assert("⋊"@ =~= seq!['⋊']);
        }
        let mut p: usize = 0;
        assert(text@ =~= seq!['⋊'] + array_letters(
            eco_offsets(self.indices),
            eco_flags(self.unbox),
            0,
        ));
        while p < n
            invariant
                p <= n,
                n == shorter(eco_offsets(self.indices).len(), eco_flags(self.unbox).len()),
                forall|q: int| 0 <= q < n ==> eco_offsets(self.indices)[q] >= -123,
                text@ == seq!['⋊'] + array_letters(
                    eco_offsets(self.indices),
                    eco_flags(self.unbox),
                    p as nat,
                ),
            decreases n - p,
        {
            let i: i8 = offset_at(&self.indices, p);
            let unbox: bool = flag_at(&self.unbox, p);
            let wide: i16 = i as i16;
            let plain: u8 = if wide < 0 {
                (123 + wide) as u8
            } else {
                (97 + wide) as u8
            };
            let c: u8 = if unbox { to_capital(plain) } else { plain };
            push_char(&mut text, c as char);
            p += 1;
            assert(text@ =~= seq!['⋊'] + array_letters(
                eco_offsets(self.indices),
                eco_flags(self.unbox),
                p as nat,
            ));
        }
        text
    }

    /// The signature of the swizzle: one array in, one value out for each
    /// index.
    pub fn signature(&self) -> (sig: Signature)
        ensures
            sig.args == 1,
            sig.outputs == eco_offsets(self.indices).len(),
    {
        Signature::new(1, offsets_len(&self.indices))
    }
}

} // verus!
