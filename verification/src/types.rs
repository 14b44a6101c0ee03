//! The values a tip jar is made of: recipients, shares, jars, errors and the
//! records an operation hands back.

use vstd::prelude::*;

verus! {

/// 100% expressed in basis points.
pub const BPS_DENOM: u32 = 10_000;

/// Safety bound so a single tip can't fan out to an unbounded recipient list.
pub const MAX_RECIPIENTS: u32 = 20;

/// Longest tip message, in bytes, that may ride along in the `tip` event.
pub const MAX_MESSAGE_LEN: u32 = 280;

/// Longest jar id (public slug), in bytes.
pub const MAX_JAR_ID_LEN: u32 = 64;

/// An account or contract address, held as the bytes of its strkey
/// (for instance `G...` or `C...`). Two addresses are the same exactly when
/// their strkeys are.
#[derive(Clone, Debug, PartialEq, Eq)]
pub struct Address {
    pub strkey: Vec<u8>,
}

impl View for Address {
    type V = Seq<u8>;

    open spec fn view(&self) -> Seq<u8> {
        self.strkey@
    }
}

/// Byte-wise equality of two byte strings.
pub fn bytes_eq(a: &Vec<u8>, b: &Vec<u8>) -> (r: bool)
    ensures
        r == (a@ == b@),
{
    if a.len() != b.len() {
        return false;
    }
    let n = a.len();
    let mut i: usize = 0;
    while i < n
        invariant
            n == a@.len(),
            n == b@.len(),
            i <= n,
            forall|k: int| 0 <= k < i ==> a@[k] == b@[k],
        decreases n - i,
    {
        if a[i] != b[i] {
            return false;
        }
        i = i + 1;
    }
    assert(a@ =~= b@);
    true
}

/// A fresh copy of a byte string.
pub fn copy_bytes(a: &Vec<u8>) -> (r: Vec<u8>)
    ensures
        r@ == a@,
{
    let r = a.clone();
    assert(r@ =~= a@);
    r
}

impl Address {
    /// Whether `self` and `other` name the same address.
    pub fn same(&self, other: &Address) -> (r: bool)
        ensures
            r == (self@ == other@),
    {
        bytes_eq(&self.strkey, &other.strkey)
    }

    /// A copy of this address.
    pub fn duplicate(&self) -> (r: Address)
        ensures
            r@ == self@,
    {
        Address { strkey: copy_bytes(&self.strkey) }
    }
}

/// One recipient and the share of every tip they receive, in basis points.
#[derive(Clone, Debug, PartialEq, Eq)]
pub struct Split {
    pub to: Address,
    pub bps: u32,
}

impl View for Split {
    type V = (Seq<u8>, u32);

    open spec fn view(&self) -> (Seq<u8>, u32) {
        (self.to@, self.bps)
    }
}

impl Split {
    /// A copy of this split.
    pub fn duplicate(&self) -> (r: Split)
        ensures
            r@ == self@,
    {
        Split { to: self.to.duplicate(), bps: self.bps }
    }
}

/// The recipients and shares of a list of splits, in order.
pub open spec fn splits_view(s: Seq<Split>) -> Seq<(Seq<u8>, u32)> {
    s.map_values(|x: Split| x@)
}

/// A copy of a list of splits.
pub fn copy_splits(s: &Vec<Split>) -> (r: Vec<Split>)
    ensures
        splits_view(r@) == splits_view(s@),
{
    let mut r: Vec<Split> = Vec::new();
    let n = s.len();
    let mut i: usize = 0;
    while i < n
        invariant
            n == s@.len(),
            i <= n,
            r@.len() == i,
            forall|k: int| 0 <= k < i ==> r@[k]@ == s@[k]@,
        decreases n - i,
    {
        r.push(s[i].duplicate());
        i = i + 1;
    }
    assert(splits_view(r@) =~= splits_view(s@));
    r
}

/// A creator's tip jar: who controls it and how tips are split.
#[derive(Clone, Debug, PartialEq, Eq)]
pub struct Jar {
    pub owner: Address,
    pub splits: Vec<Split>,
}

/// What a jar is, as a mathematical value.
pub struct JarView {
    pub owner: Seq<u8>,
    pub splits: Seq<(Seq<u8>, u32)>,
}

impl View for Jar {
    type V = JarView;

    open spec fn view(&self) -> JarView {
        JarView { owner: self.owner@, splits: splits_view(self.splits@) }
    }
}

impl Jar {
    /// A copy of this jar.
    pub fn duplicate(&self) -> (r: Jar)
        ensures
            r@ == self@,
    {
        Jar { owner: self.owner.duplicate(), splits: copy_splits(&self.splits) }
    }
}

/// The typed errors the contract reports.
#[derive(Clone, Copy, Debug, PartialEq, Eq, Structural)]
pub enum Error {
    NotInitialized,
    JarExists,
    JarNotFound,
    InvalidSplits,
    InvalidAmount,
    TooManyRecipients,
    DuplicateRecipient,
    MessageTooLong,
    InvalidJarId,
}

impl Error {
    /// The error's stable numeric code, as clients see it.
    pub fn code(&self) -> (r: u32)
        ensures
            r == error_code(*self),
    {
        match self {
            Error::NotInitialized => 1,
            Error::JarExists => 2,
            Error::JarNotFound => 3,
            Error::InvalidSplits => 4,
            Error::InvalidAmount => 5,
            Error::TooManyRecipients => 6,
            Error::DuplicateRecipient => 7,
            Error::MessageTooLong => 8,
            Error::InvalidJarId => 9,
        }
    }
}

/// The numeric code of each error.
pub open spec fn error_code(e: Error) -> u32 {
    match e {
        Error::NotInitialized => 1,
        Error::JarExists => 2,
        Error::JarNotFound => 3,
        Error::InvalidSplits => 4,
        Error::InvalidAmount => 5,
        Error::TooManyRecipients => 6,
        Error::DuplicateRecipient => 7,
        Error::MessageTooLong => 8,
        Error::InvalidJarId => 9,
    }
}

/// Why an invocation was turned down: one of the contract's own errors, or a
/// missing authorization from the address the call needs a signature of.
#[derive(Clone, Copy, Debug, PartialEq, Eq, Structural)]
pub enum Failure {
    Contract(Error),
    Unauthorized,
}

/// One token transfer that a tip makes: `amount` to `to`.
#[derive(Debug, PartialEq, Eq)]
pub struct Payment {
    pub to: Address,
    pub amount: i128,
}

impl View for Payment {
    type V = (Seq<u8>, int);

    open spec fn view(&self) -> (Seq<u8>, int) {
        (self.to@, self.amount as int)
    }
}

/// The payments of a list, as recipients and amounts.
pub open spec fn payments_view(p: Seq<Payment>) -> Seq<(Seq<u8>, int)> {
    p.map_values(|x: Payment| x@)
}

/// An event the contract publishes.
#[derive(Debug, PartialEq, Eq)]
pub enum Event {
    /// `jar_crtd`: topics `(jar_id)`, data `owner`.
    JarCreated { jar_id: Vec<u8>, owner: Address },
    /// `splits`: topics `(jar_id)`, data the new number of splits.
    SplitsUpdated { jar_id: Vec<u8>, split_count: u32 },
    /// `jar_xfer`: topics `(jar_id)`, data `new_owner`.
    OwnershipTransferred { jar_id: Vec<u8>, new_owner: Address },
    /// `tip`: topics `(jar_id)`, data `(from, amount, message)`.
    Tip { jar_id: Vec<u8>, from: Address, amount: i128, message: Vec<u8> },
}

/// What an accepted tip does: the transfers to make in `token`, in order, and
/// the event to publish after them.
#[derive(Debug, PartialEq, Eq)]
pub struct TipReceipt {
    pub token: Address,
    pub payments: Vec<Payment>,
    pub event: Event,
}

} // verus!
