//! The flattened device tree encoder: a writer that appends nodes and properties to a
//! structure block and a deduplicated strings block, and packs them into a blob.
use vstd::prelude::*;

use crate::bytes::{be32, has_nul, pad4, pad_to_four, push_all, slice_has_nul, to_be32, to_be64, be64};

verus! {

/// Magic number at the start of every blob.
pub const FDT_MAGIC: u32 = 0xd00d_feed;
/// Token that opens a node.
pub const FDT_BEGIN_NODE: u32 = 1;
/// Token that closes a node.
pub const FDT_END_NODE: u32 = 2;
/// Token that introduces a property.
pub const FDT_PROP: u32 = 3;
/// Token that ends the structure block.
pub const FDT_END: u32 = 9;
/// Format version written in the header.
pub const FDT_VERSION: u32 = 17;
/// Oldest format version that the blob stays compatible with.
pub const FDT_LAST_COMP_VERSION: u32 = 16;
/// Size of the header.
pub const HEADER_SIZE: u32 = 40;
/// Size of the memory reservation block: only its terminating empty entry.
pub const RSVMAP_SIZE: u32 = 16;
/// Offset of the structure block: it follows the header and the reservation block.
pub const STRUCT_OFFSET: u32 = 56;

/// Errors while building the flattened device tree.
#[derive(Debug, Clone, Copy, PartialEq, Eq, Structural)]
pub enum Error {
    /// A node could not be opened or closed.
    AppendFDTNode,
    /// A property could not be appended.
    AppendFDTProperty,
    /// The working buffer could not hold an empty tree.
    CreateFDT,
    /// A name or a string value holds a null byte.
    CstringFDTTransform,
    /// The tree was finished while a node was still open.
    FinishFDTReserveMap,
    /// Fewer bytes than the blob holds reached guest memory.
    IncompleteFDTMemoryWrite,
    /// The blob could not be written to guest memory.
    WriteFDTToMemory,
}

/// One element of the structure block.
pub enum Token {
    BeginNode(Seq<u8>),
    Property(Seq<u8>, Seq<u8>),
    EndNode,
}

/// A property to attach to the open node: its name and its raw value.
pub struct Property {
    pub name: Vec<u8>,
    pub value: Vec<u8>,
}

/// The tokens of a list of properties.
pub open spec fn prop_tokens(ps: Seq<Property>) -> Seq<Token> {
    ps.map_values(|p: Property| Token::Property(p.name@, p.value@))
}

/// How many nodes `toks` leaves open.
pub open spec fn depth(toks: Seq<Token>) -> int
    decreases toks.len(),
{
    if toks.len() == 0 {
        0
    } else {
        depth(toks.drop_last()) + match toks.last() {
            Token::BeginNode(_) => 1int,
            Token::EndNode => -1int,
            Token::Property(_, _) => 0int,
        }
    }
}

/// Whether the name of a token can be written as a null-terminated string.
pub open spec fn name_ok(t: Token) -> bool {
    match t {
        Token::BeginNode(n) => !has_nul(n),
        Token::Property(n, _) => !has_nul(n),
        Token::EndNode => true,
    }
}

/// Whether every name in `toks` can be written as a null-terminated string.
pub open spec fn names_ok(toks: Seq<Token>) -> bool {
    forall|i: int| 0 <= i < toks.len() ==> name_ok(#[trigger] toks[i])
}

/// Whether `t` may follow `toks`: a node opens as the root or inside an open node, and
/// properties and node ends need an open node.
pub open spec fn admits(toks: Seq<Token>, t: Token) -> bool {
    match t {
        Token::BeginNode(_) => toks.len() == 0 || depth(toks) > 0,
        _ => depth(toks) > 0,
    }
}

/// The distinct property names of `toks`, in the order of their first use.
pub open spec fn string_table(toks: Seq<Token>) -> Seq<Seq<u8>>
    decreases toks.len(),
{
    if toks.len() == 0 {
        seq![]
    } else {
        let t = string_table(toks.drop_last());
        match toks.last() {
            Token::Property(n, _) => if t.contains(n) {
                t
            } else {
                t.push(n)
            },
            _ => t,
        }
    }
}

/// The strings of `table`, each followed by a null byte.
pub open spec fn cstrings(table: Seq<Seq<u8>>) -> Seq<u8>
    decreases table.len(),
{
    if table.len() == 0 {
        seq![]
    } else {
        cstrings(table.drop_last()) + table.last().push(0)
    }
}

/// Where `name` starts in `cstrings(table)`; the end of the table when it is absent,
/// which is where it is then added.
pub open spec fn name_offset(table: Seq<Seq<u8>>, name: Seq<u8>) -> nat
    decreases table.len(),
{
    if table.len() == 0 {
        0
    } else if table[0] == name {
        0
    } else {
        table[0].len() + 1 + name_offset(table.drop_first(), name)
    }
}

/// The bytes of token `t` given the strings table that precedes it.
pub open spec fn encode_token(t: Token, table: Seq<Seq<u8>>) -> Seq<u8> {
    match t {
        Token::BeginNode(n) => be32(FDT_BEGIN_NODE) + pad4(n.push(0)),
        Token::EndNode => be32(FDT_END_NODE),
        Token::Property(n, v) => be32(FDT_PROP) + be32(v.len() as u32) + be32(
            name_offset(table, n) as u32,
        ) + pad4(v),
    }
}

/// The structure block of `toks`, without its end token.
pub open spec fn structure(toks: Seq<Token>) -> Seq<u8>
    decreases toks.len(),
{
    if toks.len() == 0 {
        seq![]
    } else {
        structure(toks.drop_last()) + encode_token(toks.last(), string_table(toks.drop_last()))
    }
}

/// The strings block of `toks`.
pub open spec fn strings_block(toks: Seq<Token>) -> Seq<u8> {
    cstrings(string_table(toks))
}

/// The size of the blob that `toks` packs into.
pub open spec fn blob_size(toks: Seq<Token>) -> nat {
    (STRUCT_OFFSET + structure(toks).len() + 4 + strings_block(toks).len()) as nat
}

/// The header of a blob whose structure block (end token included) and strings block have
/// the given sizes.
pub open spec fn header(struct_size: nat, strings_size: nat) -> Seq<u8> {
    be32(FDT_MAGIC) + be32((STRUCT_OFFSET + struct_size + strings_size) as u32) + be32(
        STRUCT_OFFSET,
    ) + be32((STRUCT_OFFSET + struct_size) as u32) + be32(HEADER_SIZE) + be32(FDT_VERSION) + be32(
        FDT_LAST_COMP_VERSION,
    ) + be32(0) + be32(strings_size as u32) + be32(struct_size as u32)
}

/// The packed blob of `toks`: header, empty reservation block, structure block, strings block.
pub open spec fn blob(toks: Seq<Token>) -> Seq<u8> {
    let s = structure(toks) + be32(FDT_END);
    header(s.len(), strings_block(toks).len()) + Seq::new(RSVMAP_SIZE as nat, |i: int| 0u8) + s
        + strings_block(toks)
}

/// Whether `toks` is one root node, closed.
pub open spec fn complete(toks: Seq<Token>) -> bool {
    toks.len() > 0 && depth(toks) == 0
}

/// A session that builds one tree into a working buffer of fixed size.
pub struct FdtWriter {
    data: Vec<u8>,
    strings: Vec<u8>,
    entries: Vec<Vec<u8>>,
    depth: usize,
    max_size: usize,
    tokens: Ghost<Seq<Token>>,
}

impl FdtWriter {
    /// The tokens appended so far.
    pub closed spec fn tokens(&self) -> Seq<Token> {
        self.tokens@
    }

    /// The size of the working buffer, which bounds the blob.
    pub closed spec fn max_size(&self) -> nat {
        self.max_size as nat
    }

    /// The buffers encode the tokens, and the open-node count matches them.
    pub closed spec fn wf(&self) -> bool {
        &&& self.data@ == structure(self.tokens@)
        &&& self.strings@ == strings_block(self.tokens@)
        &&& self.entries@.len() == string_table(self.tokens@).len()
        &&& forall|i: int|
            0 <= i < self.entries@.len() ==> (#[trigger] self.entries@[i])@ == string_table(
                self.tokens@,
            )[i]
        &&& self.depth as int == depth(self.tokens@)
    }

    /// The writer's invariant: its buffers encode its tokens, which are a prefix of a tree
    /// whose blob fits in the working buffer.
    pub open spec fn valid(&self) -> bool {
        &&& self.wf()
        &&& depth(self.tokens()) >= 0
        &&& blob_size(self.tokens()) <= self.max_size()
        &&& self.max_size() <= u32::MAX
    }
}


/// What appending `t` does: it succeeds exactly when no name is `bad`, the tree admits `t`
/// and the grown blob still fits; a failure leaves the writer as it was.
pub open spec fn append_outcome(
    before: FdtWriter,
    after: FdtWriter,
    t: Token,
    bad: bool,
    r: Result<(), Error>,
    err: Error,
) -> bool {
    &&& after.valid()
    &&& after.max_size() == before.max_size()
    &&& r is Ok <==> (!bad && admits(before.tokens(), t) && blob_size(before.tokens().push(t))
        <= before.max_size())
    &&& r is Ok ==> after.tokens() == before.tokens().push(t)
    &&& r is Err ==> after == before
    &&& bad ==> r == Err::<(), Error>(Error::CstringFDTTransform)
    &&& (!bad && r is Err) ==> r == Err::<(), Error>(err)
}

/// The definitions of the model, unfolded once at the end of a token sequence.
pub proof fn lemma_push(toks: Seq<Token>, t: Token)
    ensures
        depth(toks.push(t)) == depth(toks) + match t {
            Token::BeginNode(_) => 1int,
            Token::EndNode => -1int,
            Token::Property(_, _) => 0int,
        },
        string_table(toks.push(t)) == match t {
            Token::Property(n, _) => if string_table(toks).contains(n) {
                string_table(toks)
            } else {
                string_table(toks).push(n)
            },
            _ => string_table(toks),
        },
        structure(toks.push(t)) == structure(toks) + encode_token(t, string_table(toks)),
{
    assert(toks.push(t).drop_last() =~= toks);
}

/// Each token takes at least four bytes, and no more nodes are open than tokens written.
pub proof fn lemma_structure_len(toks: Seq<Token>)
    ensures
        structure(toks).len() >= 4 * toks.len(),
        depth(toks) <= toks.len(),
    decreases toks.len(),
{
    if toks.len() > 0 {
        lemma_structure_len(toks.drop_last());
    }
}

/// The strings of a prefix of a table take no more room than the whole table.
pub proof fn lemma_cstrings_take(table: Seq<Seq<u8>>, i: int)
    requires
        0 <= i <= table.len(),
    ensures
        cstrings(table.take(i)).len() <= cstrings(table).len(),
    decreases table.len() - i,
{
    if i < table.len() {
        assert(table.take(i + 1).drop_last() =~= table.take(i));
        lemma_cstrings_take(table, i + 1);
    } else {
        assert(table.take(i) =~= table);
    }
}

/// Appending tokens never shrinks the blob.
pub proof fn lemma_blob_size_grows(a: Seq<Token>, b: Seq<Token>)
    ensures
        blob_size(a) <= blob_size(a + b),
    decreases b.len(),
{
    if b.len() > 0 {
        lemma_blob_size_grows(a, b.drop_last());
        assert((a + b) =~= (a + b.drop_last()).push(b.last()));
        lemma_push(a + b.drop_last(), b.last());
        let t = string_table(a + b.drop_last());
        match b.last() {
            Token::Property(n, _) => {
                if !t.contains(n) {
                    assert(t.push(n).drop_last() =~= t);
                }
            },
            _ => {},
        }
    } else {
        assert(a + b =~= a);
    }
}

/// Opens a writer over a working buffer of `max_size` bytes; fails when an empty tree would
/// not fit in it, or when its size does not fit the header's 32-bit fields.
pub fn allocate_fdt(max_size: usize) -> (r: Result<FdtWriter, Error>)
    ensures
        r is Ok <==> (STRUCT_OFFSET + 4 <= max_size && max_size <= u32::MAX),
        match r {
            Ok(w) => w.valid() && w.tokens() == Seq::<Token>::empty() && w.max_size() == max_size,
            Err(e) => e == Error::CreateFDT,
        },
{
    if max_size < (STRUCT_OFFSET as usize) + 4 || max_size as u64 > u32::MAX as u64 {
        return Err(Error::CreateFDT);
    }
    let w = FdtWriter {
        data: Vec::new(),
        strings: Vec::new(),
        entries: Vec::new(),
        depth: 0,
        max_size,
        tokens: Ghost(Seq::empty()),
    };
    proof {
        assert(cstrings(Seq::<Seq<u8>>::empty()) =~= Seq::<u8>::empty());
    }
    Ok(w)
}

impl FdtWriter {
    /// Looks `name` up in the strings table: whether it is there, and its offset (the end of
    /// the table when it is not).
    fn find_name(&self, name: &[u8]) -> (r: (bool, usize))
        requires
            self.valid(),
        ensures
            r.0 == string_table(self.tokens()).contains(name@),
            r.1 == name_offset(string_table(self.tokens()), name@),
            r.1 <= self.strings@.len(),
    {
        let ghost table = string_table(self.tokens@);
        let mut i: usize = 0;
        let mut off: usize = 0;
        proof {
            assert(table.skip(0) =~= table);
            assert(table.take(0) =~= Seq::<Seq<u8>>::empty());
        }
        while i < self.entries.len()
            invariant
                self.valid(),
                table == string_table(self.tokens@),
                i <= table.len(),
                off == cstrings(table.take(i as int)).len(),
                forall|j: int| 0 <= j < i ==> table[j] != name@,
                name_offset(table, name@) == off + name_offset(table.skip(i as int), name@),
            decreases table.len() - i,
        {
            proof {
                lemma_cstrings_take(table, i as int);
            }
            if crate::bytes::bytes_eq(self.entries[i].as_slice(), name) {
                proof {
                    assert(table.skip(i as int)[0] == table[i as int]);
                    assert(table.contains(name@));
                }
                return (true, off);
            }
            proof {
                let rest = table.skip(i as int);
                assert(rest[0] == table[i as int]);
                assert(rest.drop_first() =~= table.skip(i + 1));
                assert(table.take(i + 1).drop_last() =~= table.take(i as int));
                lemma_cstrings_take(table, i + 1);
            }
            off = off + self.entries[i].len() + 1;
            i = i + 1;
        }
        proof {
            assert(table.take(i as int) =~= table);
            assert(!table.contains(name@));
        }
        (false, off)
    }
}

/// Opens a child node named `name` under the open node, or the root when nothing was
/// written yet.
pub fn append_begin_node(fdt: &mut FdtWriter, name: &[u8]) -> (r: Result<(), Error>)
    requires
        old(fdt).valid(),
    ensures
        append_outcome(
            *old(fdt),
            *final(fdt),
            Token::BeginNode(name@),
            has_nul(name@),
            r,
            Error::AppendFDTNode,
        ),
{
    let ghost t = Token::BeginNode(name@);
    proof {
        lemma_push(fdt.tokens@, t);
        lemma_structure_len(fdt.tokens@);
    }
    if slice_has_nul(name) {
        return Err(Error::CstringFDTTransform);
    }
    if !(fdt.data.len() == 0 || fdt.depth > 0) {
        return Err(Error::AppendFDTNode);
    }
    if name.len() >= fdt.max_size {
        return Err(Error::AppendFDTNode);
    }
    let nl: u64 = name.len() as u64 + 1;
    let padded: u64 = nl + (4 - nl % 4) % 4;
    let need: u64 = STRUCT_OFFSET as u64 + fdt.data.len() as u64 + 4 + fdt.strings.len() as u64 + 4
        + padded;
    if need > fdt.max_size as u64 {
        return Err(Error::AppendFDTNode);
    }
    let ghost old_data = fdt.data@;
    push_all(&mut fdt.data, &to_be32(FDT_BEGIN_NODE));
    let name_start = fdt.data.len();
    push_all(&mut fdt.data, name);
    fdt.data.push(0);
    proof {
        assert(fdt.data@.skip(name_start as int) =~= name@.push(0));
        assert(fdt.data@.take(name_start as int) =~= old_data + be32(FDT_BEGIN_NODE));
    }
    pad_to_four(&mut fdt.data, name_start);
    fdt.depth = fdt.depth + 1;
    fdt.tokens = Ghost(fdt.tokens@.push(t));
    proof {
        assert(fdt.data@ =~= old_data + encode_token(t, string_table(old(fdt).tokens@)));
    }
    Ok(())
}

/// Closes the most recently opened node that is still open.
pub fn append_end_node(fdt: &mut FdtWriter) -> (r: Result<(), Error>)
    requires
        old(fdt).valid(),
    ensures
        append_outcome(*old(fdt), *final(fdt), Token::EndNode, false, r, Error::AppendFDTNode),
{
    let ghost t = Token::EndNode;
    proof {
        lemma_push(fdt.tokens@, t);
    }
    if fdt.depth == 0 {
        return Err(Error::AppendFDTNode);
    }
    let need: u64 = STRUCT_OFFSET as u64 + fdt.data.len() as u64 + 4 + fdt.strings.len() as u64 + 4;
    if need > fdt.max_size as u64 {
        return Err(Error::AppendFDTNode);
    }
    let ghost old_data = fdt.data@;
    push_all(&mut fdt.data, &to_be32(FDT_END_NODE));
    fdt.depth = fdt.depth - 1;
    fdt.tokens = Ghost(fdt.tokens@.push(t));
    Ok(())
}

/// Attaches a property with the raw value `val` to the open node.
pub fn append_property(fdt: &mut FdtWriter, name: &[u8], val: &[u8]) -> (r: Result<(), Error>)
    requires
        old(fdt).valid(),
    ensures
        append_outcome(
            *old(fdt),
            *final(fdt),
            Token::Property(name@, val@),
            has_nul(name@),
            r,
            Error::AppendFDTProperty,
        ),
{
    let ghost t = Token::Property(name@, val@);
    let ghost table = string_table(fdt.tokens@);
    proof {
        lemma_push(fdt.tokens@, t);
    }
    if slice_has_nul(name) {
        return Err(Error::CstringFDTTransform);
    }
    if fdt.depth == 0 || val.len() >= fdt.max_size {
        return Err(Error::AppendFDTProperty);
    }
    let (found, off) = fdt.find_name(name);
    proof {
        if !found {
            assert(table.push(name@).drop_last() =~= table);
        }
    }
    if !found && name.len() >= fdt.max_size {
        return Err(Error::AppendFDTProperty);
    }
    let vl: u64 = val.len() as u64;
    let added: u64 = if found { 0 } else { name.len() as u64 + 1 };
    let need: u64 = STRUCT_OFFSET as u64 + fdt.data.len() as u64 + 4 + fdt.strings.len() as u64
        + 12 + vl + (4 - vl % 4) % 4 + added;
    if need > fdt.max_size as u64 {
        return Err(Error::AppendFDTProperty);
    }
    let ghost old_data = fdt.data@;
    push_all(&mut fdt.data, &to_be32(FDT_PROP));
    push_all(&mut fdt.data, &to_be32(val.len() as u32));
    push_all(&mut fdt.data, &to_be32(off as u32));
    let val_start = fdt.data.len();
    push_all(&mut fdt.data, val);
    proof {
        assert(fdt.data@.skip(val_start as int) =~= val@);
        assert(fdt.data@.take(val_start as int) =~= old_data + be32(FDT_PROP) + be32(
            val@.len() as u32,
        ) + be32(off as u32));
    }
    pad_to_four(&mut fdt.data, val_start);
    if !found {
        push_all(&mut fdt.strings, name);
        fdt.strings.push(0);
        fdt.entries.push(vstd::slice::slice_to_vec(name));
    }
    fdt.tokens = Ghost(fdt.tokens@.push(t));
    proof {
        assert(fdt.data@ =~= old_data + encode_token(t, table));
        if !found {
            assert(fdt.strings@ =~= cstrings(table.push(name@)));
        }
        assert forall|i: int| 0 <= i < fdt.entries@.len() implies (#[trigger] fdt.entries@[i])@
            == string_table(fdt.tokens@)[i] by {
            if i < old(fdt).entries@.len() {
                assert(fdt.entries@[i] == old(fdt).entries@[i]);
            }
        }
    }
    Ok(())
}

/// Attaches a property holding `val` as one 32-bit big-endian cell.
pub fn append_property_u32(fdt: &mut FdtWriter, name: &[u8], val: u32) -> (r: Result<(), Error>)
    requires
        old(fdt).valid(),
    ensures
        append_outcome(
            *old(fdt),
            *final(fdt),
            Token::Property(name@, be32(val)),
            has_nul(name@),
            r,
            Error::AppendFDTProperty,
        ),
{
    append_property(fdt, name, &to_be32(val))
}

/// Attaches a property holding `val` as two 32-bit big-endian cells.
pub fn append_property_u64(fdt: &mut FdtWriter, name: &[u8], val: u64) -> (r: Result<(), Error>)
    requires
        old(fdt).valid(),
    ensures
        append_outcome(
            *old(fdt),
            *final(fdt),
            Token::Property(name@, be64(val)),
            has_nul(name@),
            r,
            Error::AppendFDTProperty,
        ),
{
    append_property(fdt, name, &to_be64(val))
}

/// Attaches a flag property: a name with an empty value.
pub fn append_property_null(fdt: &mut FdtWriter, name: &[u8]) -> (r: Result<(), Error>)
    requires
        old(fdt).valid(),
    ensures
        append_outcome(
            *old(fdt),
            *final(fdt),
            Token::Property(name@, Seq::empty()),
            has_nul(name@),
            r,
            Error::AppendFDTProperty,
        ),
{
    let empty: Vec<u8> = Vec::new();
    proof {
        assert(empty@ =~= Seq::<u8>::empty());
    }
    append_property(fdt, name, empty.as_slice())
}

/// Attaches a string property: `value`, which holds no null byte, and a null terminator.
pub fn append_property_cstring(fdt: &mut FdtWriter, name: &[u8], value: &[u8]) -> (r: Result<
    (),
    Error,
>)
    requires
        old(fdt).valid(),
        !has_nul(value@),
    ensures
        append_outcome(
            *old(fdt),
            *final(fdt),
            Token::Property(name@, value@.push(0)),
            has_nul(name@),
            r,
            Error::AppendFDTProperty,
        ),
{
    let mut bytes = vstd::slice::slice_to_vec(value);
    bytes.push(0);
    append_property(fdt, name, bytes.as_slice())
}

/// Attaches a string property; fails when `value` holds a null byte.
pub fn append_property_string(fdt: &mut FdtWriter, name: &[u8], value: &[u8]) -> (r: Result<
    (),
    Error,
>)
    requires
        old(fdt).valid(),
    ensures
        append_outcome(
            *old(fdt),
            *final(fdt),
            Token::Property(name@, value@.push(0)),
            has_nul(name@) || has_nul(value@),
            r,
            Error::AppendFDTProperty,
        ),
{
    if slice_has_nul(value) {
        return Err(Error::CstringFDTTransform);
    }
    append_property_cstring(fdt, name, value)
}

/// Packs a closed tree into its blob: header, empty memory reservation block, structure
/// block with its end token, strings block.
pub fn finish_fdt(fdt: &FdtWriter) -> (r: Result<Vec<u8>, Error>)
    requires
        fdt.valid(),
    ensures
        r is Ok <==> complete(fdt.tokens()),
        match r {
            Ok(b) => b@ == blob(fdt.tokens()) && b@.len() == blob_size(fdt.tokens()),
            Err(e) => e == Error::FinishFDTReserveMap,
        },
{
    proof {
        lemma_structure_len(fdt.tokens@);
    }
    if fdt.data.len() == 0 || fdt.depth != 0 {
        return Err(Error::FinishFDTReserveMap);
    }
    let struct_size: u32 = (fdt.data.len() + 4) as u32;
    let strings_size: u32 = fdt.strings.len() as u32;
    let total: u32 = STRUCT_OFFSET + struct_size + strings_size;
    let mut out: Vec<u8> = Vec::new();
    push_all(&mut out, &to_be32(FDT_MAGIC));
    push_all(&mut out, &to_be32(total));
    push_all(&mut out, &to_be32(STRUCT_OFFSET));
    push_all(&mut out, &to_be32(STRUCT_OFFSET + struct_size));
    push_all(&mut out, &to_be32(HEADER_SIZE));
    push_all(&mut out, &to_be32(FDT_VERSION));
    push_all(&mut out, &to_be32(FDT_LAST_COMP_VERSION));
    push_all(&mut out, &to_be32(0));
    push_all(&mut out, &to_be32(strings_size));
    push_all(&mut out, &to_be32(struct_size));
    let ghost head = out@;
    proof {
        assert(head =~= header(struct_size as nat, strings_size as nat));
    }
    let mut k: u32 = 0;
    while k < RSVMAP_SIZE
        invariant
            k <= RSVMAP_SIZE,
            out@ == head + Seq::new(k as nat, |i: int| 0u8),
        decreases RSVMAP_SIZE - k,
    {
        out.push(0);
        k = k + 1;
        assert(out@ =~= head + Seq::new(k as nat, |i: int| 0u8));
    }
    push_all(&mut out, fdt.data.as_slice());
    push_all(&mut out, &to_be32(FDT_END));
    push_all(&mut out, fdt.strings.as_slice());
    proof {
        assert(out@ =~= blob(fdt.tokens@));
    }
    Ok(out)
}

/// What emitting the tokens `ts` does: it succeeds exactly when no value is `bad`, every
/// name is valid and the grown blob still fits. When the blob would fit, a failure can only
/// come from a name or a value.
#[verifier::opaque]
pub open spec fn build_outcome(
    before: FdtWriter,
    after: FdtWriter,
    ts: Seq<Token>,
    bad: bool,
    r: Result<(), Error>,
) -> bool {
    &&& after.valid()
    &&& after.max_size() == before.max_size()
    &&& r is Ok <==> (!bad && names_ok(ts) && blob_size(before.tokens() + ts) <= before.max_size())
    &&& r is Ok ==> after.tokens() == before.tokens() + ts && depth(after.tokens()) == depth(
        before.tokens(),
    ) + depth(ts)
    &&& (r is Err && blob_size(before.tokens() + ts) <= before.max_size()) ==> r == Err::<
        (),
        Error,
    >(Error::CstringFDTTransform)
    &&& r is Err ==> emitted_prefix(before.tokens(), after.tokens(), ts)
}

/// Whether `after` is `before` followed by a prefix of `ts`: a failed emission stops part
/// way and adds nothing else.
pub open spec fn emitted_prefix(before: Seq<Token>, after: Seq<Token>, ts: Seq<Token>) -> bool {
    exists|k: int| 0 <= k <= ts.len() && after == before + ts.take(k)
}

/// Nothing emitted is a prefix.
pub proof fn lemma_prefix_none(before: Seq<Token>, ts: Seq<Token>)
    ensures
        emitted_prefix(before, before, ts),
{
    assert(before + ts.take(0) =~= before);
}

/// A prefix of a part in the middle of a sequence is a prefix of the sequence.
pub proof fn lemma_prefix_mid(
    before: Seq<Token>,
    a: Seq<Token>,
    p: Seq<Token>,
    r: Seq<Token>,
    after: Seq<Token>,
)
    requires
        emitted_prefix(before + a, after, p),
    ensures
        emitted_prefix(before, after, a + p + r),
{
    let k = choose|k: int| 0 <= k <= p.len() && after == before + a + p.take(k);
    assert(before + a + p.take(k) =~= before + (a + p + r).take(a.len() + k));
}

/// The open-node count of two sequences, one after the other.
pub proof fn lemma_depth_concat(a: Seq<Token>, b: Seq<Token>)
    ensures
        depth(a + b) == depth(a) + depth(b),
    decreases b.len(),
{
    if b.len() == 0 {
        assert(a + b =~= a);
    } else {
        lemma_depth_concat(a, b.drop_last());
        assert((a + b).drop_last() =~= a + b.drop_last());
    }
}

/// Properties open and close nothing.
pub proof fn lemma_props_depth(ps: Seq<Property>)
    ensures
        depth(prop_tokens(ps)) == 0,
    decreases ps.len(),
{
    if ps.len() > 0 {
        lemma_props_depth(ps.drop_last());
        assert(prop_tokens(ps).drop_last() =~= prop_tokens(ps.drop_last()));
    }
}

/// The tokens of a node without children.
pub open spec fn node_tokens(name: Seq<u8>, ps: Seq<Property>) -> Seq<Token> {
    seq![Token::BeginNode(name)] + prop_tokens(ps) + seq![Token::EndNode]
}

/// A failed step makes the whole sequence fail: the blob of a prefix that does not fit
/// cannot fit once more tokens follow, and a bad name stays in the sequence.
proof fn lemma_step_fails(before: Seq<Token>, ts: Seq<Token>, k: int, max: nat)
    requires
        0 <= k < ts.len(),
        !name_ok(ts[k]) || blob_size((before + ts.take(k)).push(ts[k])) > max,
    ensures
        !names_ok(ts) || blob_size(before + ts) > max,
        name_ok(ts[k]) ==> blob_size(before + ts) > max,
{
    if name_ok(ts[k]) {
        assert((before + ts.take(k)).push(ts[k]) + ts.skip(k + 1) =~= before + ts);
        lemma_blob_size_grows((before + ts.take(k)).push(ts[k]), ts.skip(k + 1));
    }
}

/// Attaches the properties `props`, in order, to the open node.
pub fn append_props(fdt: &mut FdtWriter, props: &Vec<Property>) -> (r: Result<(), Error>)
    requires
        old(fdt).valid(),
        depth(old(fdt).tokens()) > 0,
    ensures
        build_outcome(*old(fdt), *final(fdt), prop_tokens(props@), false, r),
{
    proof {
        reveal(build_outcome);
    }
    let ghost before = fdt.tokens();
    let ghost ts = prop_tokens(props@);
    proof {
        lemma_props_depth(props@);
        assert(before + ts.take(0) =~= before);
    }
    let mut i: usize = 0;
    while i < props.len()
        invariant
            fdt.valid(),
            fdt.max_size() == old(fdt).max_size(),
            before == old(fdt).tokens(),
            ts == prop_tokens(props@),
            depth(ts) == 0,
            i <= props@.len(),
            fdt.tokens() == before + ts.take(i as int),
            names_ok(ts.take(i as int)),
            depth(fdt.tokens()) == depth(before),
            depth(before) > 0,
        decreases props@.len() - i,
    {
        proof {
            reveal(build_outcome);
        }
        let ghost cur = fdt.tokens();
        assert(ts[i as int] == Token::Property(props@[i as int].name@, props@[i as int].value@));
        let r = append_property(fdt, props[i].name.as_slice(), props[i].value.as_slice());
        if r.is_err() {
            proof {
                lemma_step_fails(before, ts, i as int, fdt.max_size());
                assert(ts.take(i as int).len() == i);
                assert(fdt.tokens() == before + ts.take(i as int));
            }
            return r;
        }
        proof {
            lemma_push(cur, ts[i as int]);
            assert(ts.take(i + 1) =~= ts.take(i as int).push(ts[i as int]));
            assert(fdt.tokens() =~= before + ts.take(i + 1));
        }
        i = i + 1;
    }
    proof {
        assert(ts.take(i as int) =~= ts);
    }
    Ok(())
}

/// Appends a whole node without children: it opens, takes `props` and closes.
pub fn append_node(fdt: &mut FdtWriter, name: &[u8], props: &Vec<Property>) -> (r: Result<
    (),
    Error,
>)
    requires
        old(fdt).valid(),
        admits(old(fdt).tokens(), Token::BeginNode(name@)),
    ensures
        build_outcome(*old(fdt), *final(fdt), node_tokens(name@, props@), false, r),
        depth(node_tokens(name@, props@)) == 0,
{
    proof {
        reveal(build_outcome);
    }
    let ghost before = fdt.tokens();
    let ghost ps = prop_tokens(props@);
    let ghost ts = node_tokens(name@, props@);
    proof {
        lemma_props_depth(props@);
        lemma_depth_concat(seq![Token::BeginNode(name@)], ps);
        lemma_depth_concat(seq![Token::BeginNode(name@)] + ps, seq![Token::EndNode]);
        lemma_depth_concat(before, ts);
        lemma_push(Seq::<Token>::empty(), Token::BeginNode(name@));
        lemma_push(Seq::<Token>::empty(), Token::EndNode);
        assert(seq![Token::BeginNode(name@)] =~= Seq::<Token>::empty().push(
            Token::BeginNode(name@),
        ));
        assert(seq![Token::EndNode] =~= Seq::<Token>::empty().push(Token::EndNode));
        assert(ts[0] == Token::BeginNode(name@));
        assert(ts.take(0) =~= Seq::<Token>::empty());
        assert(before + ts.take(0) =~= before);
    }
    let r = append_begin_node(fdt, name);
    if r.is_err() {
        proof {
            lemma_step_fails(before, ts, 0, fdt.max_size());
            lemma_prefix_none(before, ts);
        }
        return r;
    }
    let ghost opened = fdt.tokens();
    proof {
        lemma_push(before, Token::BeginNode(name@));
    }
    let r = append_props(fdt, props);
    if r.is_err() {
        proof {
            if !names_ok(ps) {
                let j = choose|j: int| 0 <= j < ps.len() && !name_ok(#[trigger] ps[j]);
                assert(ts[j + 1] == ps[j]);
            }
            assert(opened + ps + seq![Token::EndNode] =~= before + ts);
            lemma_blob_size_grows(opened + ps, seq![Token::EndNode]);
            assert(opened == before + seq![Token::BeginNode(name@)]);
            lemma_prefix_mid(before, seq![Token::BeginNode(name@)], ps, seq![Token::EndNode], fdt.tokens());
            assert(seq![Token::BeginNode(name@)] + ps + seq![Token::EndNode] =~= ts);
        }
        return r;
    }
    let ghost filled = fdt.tokens();
    let r = append_end_node(fdt);
    proof {
        assert(filled.push(Token::EndNode) =~= before + ts);
        if r is Err {
            assert(filled =~= before + ts.take(ts.len() - 1));
        }
        assert forall|j: int| 0 <= j < ts.len() implies name_ok(#[trigger] ts[j]) by {
            if 0 < j < ts.len() - 1 {
                assert(ts[j] == ps[j - 1]);
            }
        }
    }
    r
}

/// A node without children opens and closes nothing once it is done, as long as its body
/// holds only properties.
pub proof fn lemma_leaf_depth(name: Seq<u8>, props: Seq<Token>)
    requires
        forall|i: int| 0 <= i < props.len() ==> (#[trigger] props[i]) is Property,
    ensures
        depth(seq![Token::BeginNode(name)] + props + seq![Token::EndNode]) == 0,
{
    lemma_only_props_depth(props);
    lemma_push(Seq::<Token>::empty(), Token::BeginNode(name));
    lemma_push(Seq::<Token>::empty(), Token::EndNode);
    assert(seq![Token::BeginNode(name)] =~= Seq::<Token>::empty().push(Token::BeginNode(name)));
    assert(seq![Token::EndNode] =~= Seq::<Token>::empty().push(Token::EndNode));
    lemma_depth_concat(seq![Token::BeginNode(name)], props);
    lemma_depth_concat(seq![Token::BeginNode(name)] + props, seq![Token::EndNode]);
}

/// A sequence of properties opens and closes nothing.
pub proof fn lemma_only_props_depth(props: Seq<Token>)
    requires
        forall|i: int| 0 <= i < props.len() ==> (#[trigger] props[i]) is Property,
    ensures
        depth(props) == 0,
    decreases props.len(),
{
    if props.len() > 0 {
        lemma_only_props_depth(props.drop_last());
    }
}

/// When a part in the middle of a sequence cannot be emitted, neither can the whole: the blob
/// up to the end of the part is no larger than the whole blob, and the part's names are among
/// the whole's.
pub proof fn lemma_part(before: Seq<Token>, a: Seq<Token>, p: Seq<Token>, r: Seq<Token>)
    ensures
        blob_size(before + a + p) <= blob_size(before + (a + p + r)),
        names_ok(a + p + r) ==> names_ok(p),
        names_ok(a + p + r) ==> names_ok(a),
        depth(before + a + p) == depth(before) + depth(a) + depth(p),
{
    assert(before + a + p + r =~= before + (a + p + r));
    lemma_blob_size_grows(before + a + p, r);
    lemma_depth_concat(before, a);
    lemma_depth_concat(before + a, p);
    if names_ok(a + p + r) {
        assert forall|i: int| 0 <= i < p.len() implies name_ok(#[trigger] p[i]) by {
            assert((a + p + r)[a.len() + i] == p[i]);
        }
        assert forall|i: int| 0 <= i < a.len() implies name_ok(#[trigger] a[i]) by {
            assert((a + p + r)[i] == a[i]);
        }
    }
}

/// Valid names stay valid side by side.
pub proof fn lemma_names_concat(a: Seq<Token>, b: Seq<Token>)
    ensures
        names_ok(a + b) <==> names_ok(a) && names_ok(b),
{
    if names_ok(a) && names_ok(b) {
        assert forall|i: int| 0 <= i < (a + b).len() implies name_ok(#[trigger] (a + b)[i]) by {
            if i >= a.len() {
                assert((a + b)[i] == b[i - a.len()]);
            }
        }
    }
    if names_ok(a + b) {
        assert forall|i: int| 0 <= i < b.len() implies name_ok(#[trigger] b[i]) by {
            assert((a + b)[a.len() + i] == b[i]);
        }
        assert forall|i: int| 0 <= i < a.len() implies name_ok(#[trigger] a[i]) by {
            assert((a + b)[i] == a[i]);
        }
    }
}

/// Two emissions one after the other, the first one successful, are one emission of both.
pub proof fn lemma_then(
    w0: FdtWriter,
    w1: FdtWriter,
    w2: FdtWriter,
    t1: Seq<Token>,
    t2: Seq<Token>,
    bad1: bool,
    bad2: bool,
    r1: Result<(), Error>,
    r2: Result<(), Error>,
)
    requires
        build_outcome(w0, w1, t1, bad1, r1),
        r1 is Ok,
        build_outcome(w1, w2, t2, bad2, r2),
    ensures
        build_outcome(w0, w2, t1 + t2, bad1 || bad2, r2),
{
    reveal(build_outcome);
    lemma_names_concat(t1, t2);
    lemma_depth_concat(t1, t2);
    assert(w0.tokens() + t1 + t2 =~= w0.tokens() + (t1 + t2));
    lemma_blob_size_grows(w0.tokens() + t1, t2);
    if r2 is Err {
        lemma_prefix_mid(w0.tokens(), t1, t2, Seq::empty(), w2.tokens());
        assert(t1 + t2 + Seq::<Token>::empty() =~= t1 + t2);
    }
}

/// An emission that failed fails the emission of everything that was to follow it too.
pub proof fn lemma_stop(
    w0: FdtWriter,
    w1: FdtWriter,
    t1: Seq<Token>,
    rest: Seq<Token>,
    bad1: bool,
    bad_rest: bool,
    r1: Result<(), Error>,
)
    requires
        build_outcome(w0, w1, t1, bad1, r1),
        r1 is Err,
    ensures
        build_outcome(w0, w1, t1 + rest, bad1 || bad_rest, r1),
{
    reveal(build_outcome);
    lemma_names_concat(t1, rest);
    assert(w0.tokens() + t1 + rest =~= w0.tokens() + (t1 + rest));
    lemma_blob_size_grows(w0.tokens() + t1, rest);
    assert(w0.tokens() + Seq::<Token>::empty() =~= w0.tokens());
    lemma_prefix_mid(w0.tokens(), Seq::empty(), t1, rest, w1.tokens());
    assert(Seq::<Token>::empty() + t1 + rest =~= t1 + rest);
}

/// Four sequences one after the other, grouped in the ways that emission steps use.
pub proof fn lemma_regroup(a: Seq<Token>, b: Seq<Token>, c: Seq<Token>, d: Seq<Token>)
    ensures
        a + (b + c + d) == a + b + c + d,
        a + b + (c + d) == a + b + c + d,
{
    assert(a + (b + c + d) =~= a + b + c + d);
    assert(a + b + (c + d) =~= a + b + c + d);
}

/// What a successful emission leaves behind.
pub proof fn lemma_ok(w0: FdtWriter, w1: FdtWriter, t: Seq<Token>, bad: bool, r: Result<(), Error>)
    requires
        build_outcome(w0, w1, t, bad, r),
        r is Ok,
    ensures
        w1.valid(),
        w1.max_size() == w0.max_size(),
        w1.tokens() == w0.tokens() + t,
        depth(w1.tokens()) == depth(w0.tokens()) + depth(t),
{
    reveal(build_outcome);
}

/// One token appended, seen as an emission of a sequence of one.
pub proof fn lemma_single(
    w0: FdtWriter,
    w1: FdtWriter,
    t: Token,
    bad: bool,
    r: Result<(), Error>,
    err: Error,
)
    requires
        append_outcome(w0, w1, t, bad, r, err),
        admits(w0.tokens(), t),
        name_ok(t) == !bad,
    ensures
        build_outcome(w0, w1, seq![t], bad, r),
        depth(seq![t]) == match t {
            Token::BeginNode(_) => 1int,
            Token::EndNode => -1int,
            Token::Property(_, _) => 0int,
        },
{
    reveal(build_outcome);
    lemma_push(Seq::<Token>::empty(), t);
    assert(seq![t] =~= Seq::<Token>::empty().push(t));
    assert(w0.tokens() + seq![t] =~= w0.tokens().push(t));
    lemma_depth_concat(w0.tokens(), seq![t]);
    lemma_prefix_none(w0.tokens(), seq![t]);
    if !bad {
        assert forall|i: int| 0 <= i < seq![t].len() implies name_ok(#[trigger] seq![t][i]) by {}
    } else {
        assert(!name_ok(seq![t][0]));
    }
}

} // verus!
