//! Names of git objects.

use vstd::prelude::*;

use crate::order::Keyed;
use crate::text::{digit, digit_char};

verus! {

/// The name of a git object: a hash of twenty bytes, the first of them highest in `hi`.
#[derive(Debug, Clone, Copy, PartialEq, Eq, Structural)]
pub struct ObjectId {
    pub hi: u64,
    pub mid: u64,
    pub lo: u32,
}

/// Whether `a` comes before `b` in the order of their bytes.
pub open spec fn id_before(a: ObjectId, b: ObjectId) -> bool {
    a.hi < b.hi || (a.hi == b.hi && (a.mid < b.mid || (a.mid == b.mid && a.lo < b.lo)))
}

impl Keyed for ObjectId {
    type Key = ObjectId;

    open spec fn key(&self) -> ObjectId {
        *self
    }

    open spec fn precedes(a: ObjectId, b: ObjectId) -> bool {
        id_before(a, b)
    }

    fn is_before(&self, other: &Self) -> (r: bool) {
        self.hi < other.hi || (self.hi == other.hi && (self.mid < other.mid || (self.mid
            == other.mid && self.lo < other.lo)))
    }

    proof fn total(a: ObjectId, b: ObjectId) {
    }

    proof fn transitive(a: ObjectId, b: ObjectId, c: ObjectId) {
    }
}

/// The last `width` hexadecimal digits of `n`.
pub open spec fn hex_digits(n: nat, width: nat) -> Seq<char>
    decreases width,
{
    if width == 0 {
        Seq::empty()
    } else {
        hex_digits(n / 16, (width - 1) as nat).push(digit(n % 16))
    }
}

/// Adds the last `width` hexadecimal digits of `n` to `out`.
fn push_hex(out: &mut String, n: u64, width: usize)
    ensures
        final(out)@ == old(out)@ + hex_digits(n as nat, width as nat),
    decreases width,
{
    let ghost before = out@;
    if width > 0 {
        push_hex(out, n / 16, width - 1);
        out.push(digit_char((n % 16) as u32));
    }
    assert(out@ =~= before + hex_digits(n as nat, width as nat));
}

impl ObjectId {
    /// The name in hexadecimal.
    pub open spec fn hex_text(self) -> Seq<char> {
        hex_digits(self.hi as nat, 16) + hex_digits(self.mid as nat, 16) + hex_digits(
            self.lo as nat,
            8,
        )
    }

    /// Writes the name in hexadecimal.
    pub fn hex(&self) -> (r: String)
        ensures
            r@ == self.hex_text(),
    {
        let mut out = String::new();
        push_hex(&mut out, self.hi, 16);
        push_hex(&mut out, self.mid, 16);
        push_hex(&mut out, self.lo as u64, 8);
        assert(out@ =~= self.hex_text());
        out
    }
}

/// What an entry of a tree is.
#[derive(Debug, Clone, Copy, PartialEq, Eq, Structural)]
pub enum EntryKind {
    Tree,
    Blob,
    BlobExecutable,
    Link,
    Commit,
}

impl EntryKind {
    /// The name of the kind.
    pub open spec fn label_text(self) -> Seq<char> {
        match self {
            EntryKind::Tree => "Tree"@,
            EntryKind::Blob => "Blob"@,
            EntryKind::BlobExecutable => "BlobExecutable"@,
            EntryKind::Link => "Link"@,
            EntryKind::Commit => "Commit"@,
        }
    }

    /// Names the kind.
    pub fn label(self) -> (r: &'static str)
        ensures
            r@ == self.label_text(),
    {
        match self {
            EntryKind::Tree => "Tree",
            EntryKind::Blob => "Blob",
            EntryKind::BlobExecutable => "BlobExecutable",
            EntryKind::Link => "Link",
            EntryKind::Commit => "Commit",
        }
    }
}

// ----------------------------------------------------------------------------
// Laws
// ----------------------------------------------------------------------------

proof fn lemma_hex_digits_len(n: nat, width: nat)
    ensures
        hex_digits(n, width).len() == width,
    decreases width,
{
    if width > 0 {
        lemma_hex_digits_len(n / 16, (width - 1) as nat);
    }
}

/// Sixteen to the power of `width`.
pub open spec fn hex_limit(width: nat) -> nat
    decreases width,
{
    if width == 0 {
        1
    } else {
        16 * hex_limit((width - 1) as nat)
    }
}

proof fn lemma_hex_digits_differ(a: nat, b: nat, width: nat)
    requires
        a < hex_limit(width),
        b < hex_limit(width),
        hex_digits(a, width) == hex_digits(b, width),
    ensures
        a == b,
    decreases width,
{
    if width > 0 {
        let x = hex_digits(a / 16, (width - 1) as nat);
        let y = hex_digits(b / 16, (width - 1) as nat);
        lemma_hex_digits_len(a / 16, (width - 1) as nat);
        lemma_hex_digits_len(b / 16, (width - 1) as nat);
        assert(x.push(digit(a % 16)).last() == y.push(digit(b % 16)).last());
        assert(x =~= x.push(digit(a % 16)).drop_last());
        assert(y =~= y.push(digit(b % 16)).drop_last());
        lemma_hex_digits_differ(a / 16, b / 16, (width - 1) as nat);
    }
}

/// Different objects are written differently.
pub proof fn law_hex_names_differ(a: ObjectId, b: ObjectId)
    requires
        a.hex_text() == b.hex_text(),
    ensures
        a == b,
{
    lemma_hex_digits_len(a.hi as nat, 16);
    lemma_hex_digits_len(b.hi as nat, 16);
    lemma_hex_digits_len(a.mid as nat, 16);
    lemma_hex_digits_len(b.mid as nat, 16);
    lemma_hex_digits_len(a.lo as nat, 8);
    lemma_hex_digits_len(b.lo as nat, 8);
    let ta = a.hex_text();
    let tb = b.hex_text();
    assert(ta.take(16) =~= hex_digits(a.hi as nat, 16));
    assert(tb.take(16) =~= hex_digits(b.hi as nat, 16));
    assert(ta.subrange(16, 32) =~= hex_digits(a.mid as nat, 16));
    assert(tb.subrange(16, 32) =~= hex_digits(b.mid as nat, 16));
    assert(ta.skip(32) =~= hex_digits(a.lo as nat, 8));
    assert(tb.skip(32) =~= hex_digits(b.lo as nat, 8));
    reveal_with_fuel(hex_limit, 18);
    lemma_hex_digits_differ(a.hi as nat, b.hi as nat, 16);
    lemma_hex_digits_differ(a.mid as nat, b.mid as nat, 16);
    lemma_hex_digits_differ(a.lo as nat, b.lo as nat, 8);
}

/// The number that a text of hexadecimal digits is read as.
pub open spec fn read_hex(text: Seq<char>) -> nat
    decreases text.len(),
{
    if text.len() == 0 {
        0
    } else {
        let c = text.last();
        let value = if '0' <= c <= '9' {
            c as int - '0' as int
        } else {
            c as int - 'a' as int + 10
        };
        (read_hex(text.drop_last()) * 16 + value) as nat
    }
}

proof fn lemma_hex_reads_back(n: nat, width: nat)
    requires
        n < hex_limit(width),
    ensures
        read_hex(hex_digits(n, width)) == n,
    decreases width,
{
    if width > 0 {
        lemma_hex_reads_back(n / 16, (width - 1) as nat);
        let text = hex_digits(n, width);
        assert(text.drop_last() =~= hex_digits(n / 16, (width - 1) as nat));
        assert(text.last() == digit(n % 16));
    }
}

/// The name of an object is forty digits that read back as its three parts, the highest first.
pub proof fn law_hex_names_read_back(id: ObjectId)
    ensures
        id.hex_text().len() == 40,
        read_hex(id.hex_text().subrange(0, 16)) == id.hi,
        read_hex(id.hex_text().subrange(16, 32)) == id.mid,
        read_hex(id.hex_text().subrange(32, 40)) == id.lo,
{
    lemma_hex_digits_len(id.hi as nat, 16);
    lemma_hex_digits_len(id.mid as nat, 16);
    lemma_hex_digits_len(id.lo as nat, 8);
    let text = id.hex_text();
    assert(text.subrange(0, 16) =~= hex_digits(id.hi as nat, 16));
    assert(text.subrange(16, 32) =~= hex_digits(id.mid as nat, 16));
    assert(text.subrange(32, 40) =~= hex_digits(id.lo as nat, 8));
    reveal_with_fuel(hex_limit, 18);
    lemma_hex_reads_back(id.hi as nat, 16);
    lemma_hex_reads_back(id.mid as nat, 16);
    lemma_hex_reads_back(id.lo as nat, 8);
}

/// Kinds are named differently.
pub proof fn law_kinds_have_their_own_names(a: EntryKind, b: EntryKind)
    requires
        a.label_text() == b.label_text(),
    ensures
        a == b,
{
    reveal_strlit("Tree");
    reveal_strlit("Blob");
    reveal_strlit("BlobExecutable");
    reveal_strlit("Link");
    reveal_strlit("Commit");
    assert("Tree"@.len() == 4 && "Blob"@.len() == 4 && "Link"@.len() == 4 && "Commit"@.len() == 6
        && "BlobExecutable"@.len() == 14);
    assert("Tree"@[0] == 'T' && "Blob"@[0] == 'B' && "Link"@[0] == 'L');
}

} // verus!
