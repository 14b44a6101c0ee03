//! The tip-splitter contract as a state machine: its stored state, the
//! operations on it, and what each operation accepts, rejects and changes.
//!
//! An invocation carries the addresses that authorized it (`signers`); an
//! operation that needs an address's signature fails with
//! `Failure::Unauthorized` when that address is not among them.

use vstd::prelude::*;

use crate::payout::{compute_payments, payments_fit, payments_total, planned_payments, tip_fits};
use crate::splits::{
    check_new_jar, check_tip_request, has_signed, jar_id_ok, lemma_verdict_ok_iff_valid, new_jar_verdict, signed_by,
    splits_verdict, tip_request_verdict, valid_splits, validate_splits,
};
use crate::store::JarStore;
use crate::types::{
    copy_bytes, payments_view, splits_view, Address, Error, Event, Failure, Jar, JarView, Split,
    TipReceipt,
};

verus! {

/// The contract's state: the admin and token fixed at deploy time, and the
/// registered jars.
pub struct TipSplitter {
    admin: Address,
    token: Address,
    jars: JarStore,
}

/// The contract's state as a mathematical value.
pub struct TipSplitterView {
    pub admin: Seq<u8>,
    pub token: Seq<u8>,
    pub jars: Map<Seq<u8>, JarView>,
}

impl View for TipSplitter {
    type V = TipSplitterView;

    closed spec fn view(&self) -> TipSplitterView {
        TipSplitterView { admin: self.admin@, token: self.token@, jars: self.jars@ }
    }
}

/// Every stored jar has a well-formed id and valid splits.
pub open spec fn jars_valid(jars: Map<Seq<u8>, JarView>) -> bool {
    forall|k: Seq<u8>|
        #[trigger] jars.dom().contains(k) ==> jar_id_ok(k) && valid_splits(jars[k].splits)
}

/// The state with `jar` stored under `id`.
pub open spec fn with_jar(v: TipSplitterView, id: Seq<u8>, jar: JarView) -> TipSplitterView {
    TipSplitterView { admin: v.admin, token: v.token, jars: v.jars.insert(id, jar) }
}

/// Why `create_jar` fails, if it does: the declared owner must sign, then the
/// id, the free slug and the splits are checked in that order.
pub open spec fn create_jar_failure(
    v: TipSplitterView,
    signers: Seq<Address>,
    owner: Seq<u8>,
    id: Seq<u8>,
    t: Seq<(Seq<u8>, u32)>,
) -> Option<Failure> {
    if !signed_by(signers, owner) {
        Some(Failure::Unauthorized)
    } else {
        match new_jar_verdict(v.jars.dom().contains(id), id, t) {
            Err(e) => Some(Failure::Contract(e)),
            Ok(_) => None,
        }
    }
}

/// The state after a successful `create_jar`.
pub open spec fn create_jar_post(
    v: TipSplitterView,
    owner: Seq<u8>,
    id: Seq<u8>,
    t: Seq<(Seq<u8>, u32)>,
) -> TipSplitterView {
    with_jar(v, id, JarView { owner, splits: t })
}

/// Why `update_splits` fails, if it does: the jar must exist, its owner must
/// sign, and the new splits must be valid.
pub open spec fn update_splits_failure(
    v: TipSplitterView,
    signers: Seq<Address>,
    id: Seq<u8>,
    t: Seq<(Seq<u8>, u32)>,
) -> Option<Failure> {
    if !v.jars.dom().contains(id) {
        Some(Failure::Contract(Error::JarNotFound))
    } else if !signed_by(signers, v.jars[id].owner) {
        Some(Failure::Unauthorized)
    } else {
        match splits_verdict(t) {
            Err(e) => Some(Failure::Contract(e)),
            Ok(_) => None,
        }
    }
}

/// The state after a successful `update_splits`: same owner, new splits.
pub open spec fn update_splits_post(
    v: TipSplitterView,
    id: Seq<u8>,
    t: Seq<(Seq<u8>, u32)>,
) -> TipSplitterView {
    with_jar(v, id, JarView { owner: v.jars[id].owner, splits: t })
}

/// Why `transfer_jar_ownership` fails, if it does: the jar must exist and its
/// current owner must sign.
pub open spec fn transfer_failure(v: TipSplitterView, signers: Seq<Address>, id: Seq<u8>) -> Option<
    Failure,
> {
    if !v.jars.dom().contains(id) {
        Some(Failure::Contract(Error::JarNotFound))
    } else if !signed_by(signers, v.jars[id].owner) {
        Some(Failure::Unauthorized)
    } else {
        None
    }
}

/// The state after a successful `transfer_jar_ownership`: new owner, same
/// splits.
pub open spec fn transfer_post(v: TipSplitterView, id: Seq<u8>, new_owner: Seq<u8>) -> TipSplitterView {
    with_jar(v, id, JarView { owner: new_owner, splits: v.jars[id].splits })
}

/// Why `tip` fails, if it does: the sender must sign, then the amount, the
/// message length and the jar are checked in that order.
pub open spec fn tip_failure(
    v: TipSplitterView,
    signers: Seq<Address>,
    from: Seq<u8>,
    id: Seq<u8>,
    amount: i128,
    message_len: nat,
) -> Option<Failure> {
    if !signed_by(signers, from) {
        Some(Failure::Unauthorized)
    } else {
        match tip_request_verdict(amount, message_len) {
            Err(e) => Some(Failure::Contract(e)),
            Ok(_) => if !v.jars.dom().contains(id) {
                Some(Failure::Contract(Error::JarNotFound))
            } else {
                None
            },
        }
    }
}

impl TipSplitter {
    /// The state is consistent: the store's ids are distinct. Stored jars
    /// need not pass today's validation: jars written by earlier versions of
    /// the contract stay readable, tippable and fixable.
    pub closed spec fn wf(&self) -> bool {
        self.jars.wf()
    }

    /// Deploy-time initialization: stores the admin and the token address
    /// (the USDC Stellar Asset Contract) tips are settled in.
    pub fn new(admin: Address, token: Address) -> (r: TipSplitter)
        ensures
            r.wf(),
            r@ == (TipSplitterView {
                admin: admin@,
                token: token@,
                jars: Map::<Seq<u8>, JarView>::empty(),
            }),
    {
        TipSplitter { admin, token, jars: JarStore::new() }
    }

    /// Register a new tip jar. `owner` must authorize. The id must be 1 to 64
    /// bytes and free; splits must be valid (see `validate_splits`). Emits
    /// `jar_crtd` so indexers can discover all jars from the event log.
    pub fn create_jar(
        &mut self,
        signers: &Vec<Address>,
        owner: Address,
        jar_id: Vec<u8>,
        splits: Vec<Split>,
    ) -> (r: Result<Event, Failure>)
        requires
            old(self).wf(),
        ensures
            final(self).wf(),
            final(self)@ == step(
                old(self)@,
                Call::CreateJar {
                    signers: signers@,
                    owner: owner@,
                    jar_id: jar_id@,
                    splits: splits_view(splits@),
                },
            ),
            match create_jar_failure(
                old(self)@,
                signers@,
                owner@,
                jar_id@,
                splits_view(splits@),
            ) {
                Some(f) => r == Err::<Event, Failure>(f) && final(self)@ == old(self)@,
                None => {
                    &&& final(self)@ == create_jar_post(
                        old(self)@,
                        owner@,
                        jar_id@,
                        splits_view(splits@),
                    )
                    &&& r matches Ok(Event::JarCreated { jar_id: j, owner: o })
                    &&& j@ == jar_id@
                    &&& o@ == owner@
                },
            },
    {
        if !has_signed(signers, &owner) {
            return Err(Failure::Unauthorized);
        }
        let exists = self.jars.contains(&jar_id);
        match check_new_jar(exists, &jar_id, &splits) {
            Err(e) => {
                return Err(Failure::Contract(e));
            },
            Ok(()) => {},
        }
        proof {
            lemma_verdict_ok_iff_valid(splits_view(splits@));
        }
        let event = Event::JarCreated { jar_id: copy_bytes(&jar_id), owner: owner.duplicate() };
        self.jars.insert(jar_id, Jar { owner, splits });
        Ok(event)
    }

    /// Replace an existing jar's splits. Only the jar owner may do this, and
    /// the new splits face the same validation as `create_jar`. Emits
    /// `splits` with the new number of splits.
    pub fn update_splits(&mut self, signers: &Vec<Address>, jar_id: &Vec<u8>, splits: Vec<Split>) -> (r:
        Result<Event, Failure>)
        requires
            old(self).wf(),
        ensures
            final(self).wf(),
            final(self)@ == step(
                old(self)@,
                Call::UpdateSplits { signers: signers@, jar_id: jar_id@, splits: splits_view(splits@) },
            ),
            match update_splits_failure(old(self)@, signers@, jar_id@, splits_view(splits@)) {
                Some(f) => r == Err::<Event, Failure>(f) && final(self)@ == old(self)@,
                None => {
                    &&& final(self)@ == update_splits_post(old(self)@, jar_id@, splits_view(splits@))
                    &&& r matches Ok(Event::SplitsUpdated { jar_id: j, split_count: c })
                    &&& j@ == jar_id@
                    &&& c == splits@.len()
                },
            },
    {
        let jar = match self.jars.get(jar_id) {
            Some(j) => j,
            None => {
                return Err(Failure::Contract(Error::JarNotFound));
            },
        };
        if !has_signed(signers, &jar.owner) {
            return Err(Failure::Unauthorized);
        }
        match validate_splits(&splits) {
            Err(e) => {
                return Err(Failure::Contract(e));
            },
            Ok(()) => {},
        }
        let count = splits.len() as u32;
        self.jars.insert(copy_bytes(jar_id), Jar { owner: jar.owner, splits });
        Ok(Event::SplitsUpdated { jar_id: copy_bytes(jar_id), split_count: count })
    }

    /// Hand control of a jar to `new_owner`. The current owner must
    /// authorize; the new owner need not. Splits are unchanged. Emits
    /// `jar_xfer` with the new owner.
    pub fn transfer_jar_ownership(
        &mut self,
        signers: &Vec<Address>,
        jar_id: &Vec<u8>,
        new_owner: Address,
    ) -> (r: Result<Event, Failure>)
        requires
            old(self).wf(),
        ensures
            final(self).wf(),
            final(self)@ == step(
                old(self)@,
                Call::TransferJarOwnership { signers: signers@, jar_id: jar_id@, new_owner: new_owner@ },
            ),
            match transfer_failure(old(self)@, signers@, jar_id@) {
                Some(f) => r == Err::<Event, Failure>(f) && final(self)@ == old(self)@,
                None => {
                    &&& final(self)@ == transfer_post(old(self)@, jar_id@, new_owner@)
                    &&& r matches Ok(Event::OwnershipTransferred { jar_id: j, new_owner: o })
                    &&& j@ == jar_id@
                    &&& o@ == new_owner@
                },
            },
    {
        let jar = match self.jars.get(jar_id) {
            Some(j) => j,
            None => {
                return Err(Failure::Contract(Error::JarNotFound));
            },
        };
        if !has_signed(signers, &jar.owner) {
            return Err(Failure::Unauthorized);
        }
        let event = Event::OwnershipTransferred {
            jar_id: copy_bytes(jar_id),
            new_owner: new_owner.duplicate(),
        };
        self.jars.insert(copy_bytes(jar_id), Jar { owner: new_owner, splits: jar.splits });
        Ok(event)
    }

    /// Send a tip. `from` must authorize; `amount` must be positive and
    /// `message` at most 280 bytes, both checked before any funds move. The
    /// receipt lists the transfers of `amount` from `from` across the jar's
    /// recipients (to be made atomically, in order) and the `tip` event that
    /// follows them. The stored state is not changed.
    pub fn tip(
        &self,
        signers: &Vec<Address>,
        from: Address,
        jar_id: Vec<u8>,
        amount: i128,
        message: Vec<u8>,
    ) -> (r: Result<TipReceipt, Failure>)
        requires
            self.wf(),
            tip_failure(self@, signers@, from@, jar_id@, amount, message@.len()) is None
                ==> payments_fit(self@.jars[jar_id@].splits, amount as int),
        ensures
            match tip_failure(self@, signers@, from@, jar_id@, amount, message@.len()) {
                Some(f) => r == Err::<TipReceipt, Failure>(f),
                None => {
                    &&& r matches Ok(receipt)
                    &&& receipt.token@ == self@.token
                    &&& payments_view(receipt.payments@) == planned_payments(
                        self@.jars[jar_id@].splits,
                        amount as int,
                    )
                    &&& receipt.event matches Event::Tip {
                        jar_id: j,
                        from: f,
                        amount: a,
                        message: m,
                    }
                    &&& j@ == jar_id@
                    &&& f@ == from@
                    &&& a == amount
                    &&& m@ == message@
                },
            },
    {
        if !has_signed(signers, &from) {
            return Err(Failure::Unauthorized);
        }
        match check_tip_request(amount, &message) {
            Err(e) => {
                return Err(Failure::Contract(e));
            },
            Ok(()) => {},
        }
        let jar = match self.jars.get(&jar_id) {
            Some(j) => j,
            None => {
                return Err(Failure::Contract(Error::JarNotFound));
            },
        };
        let payments = compute_payments(&jar.splits, amount);
        Ok(
            TipReceipt {
                token: self.token.duplicate(),
                payments,
                event: Event::Tip { jar_id, from, amount, message },
            },
        )
    }

    /// Whether a tip that passes every check would overflow `i128` while its
    /// shares are computed (the condition `tip` requires to be false).
    pub fn tip_would_overflow(
        &self,
        signers: &Vec<Address>,
        from: &Address,
        jar_id: &Vec<u8>,
        amount: i128,
        message: &Vec<u8>,
    ) -> (r: bool)
        requires
            self.wf(),
        ensures
            r == (tip_failure(self@, signers@, from@, jar_id@, amount, message@.len()) is None
                && !payments_fit(self@.jars[jar_id@].splits, amount as int)),
    {
        if !has_signed(signers, from) {
            return false;
        }
        if check_tip_request(amount, message).is_err() {
            return false;
        }
        match self.jars.get(jar_id) {
            Some(jar) => !tip_fits(&jar.splits, amount),
            None => false,
        }
    }

    /// The part of the state that one invocation touches: the admin, the
    /// token, and the jar stored under `jar_id`, if any, whatever it holds
    /// (earlier versions of the contract validated less).
    pub fn load(admin: Address, token: Address, jar_id: &Vec<u8>, stored: Option<Jar>) -> (r: TipSplitter)
        ensures
            r.wf(),
            r@.admin == admin@,
            r@.token == token@,
            r@.jars == match stored {
                Some(j) => Map::<Seq<u8>, JarView>::empty().insert(jar_id@, j@),
                None => Map::<Seq<u8>, JarView>::empty(),
            },
    {
        let mut jars = JarStore::new();
        match stored {
            Some(jar) => {
                jars.insert(copy_bytes(jar_id), jar);
            },
            None => {},
        }
        TipSplitter { admin, token, jars }
    }

    /// Read a jar's configuration; `JarNotFound` if the slug is free.
    pub fn get_jar(&self, jar_id: &Vec<u8>) -> (r: Result<Jar, Error>)
        requires
            self.wf(),
        ensures
            match r {
                Ok(j) => self@.jars.dom().contains(jar_id@) && j@ == self@.jars[jar_id@],
                Err(e) => !self@.jars.dom().contains(jar_id@) && e == Error::JarNotFound,
            },
    {
        match self.jars.get(jar_id) {
            Some(j) => Ok(j),
            None => Err(Error::JarNotFound),
        }
    }

    /// Whether `jar_id` is already registered; slugs match exactly.
    pub fn jar_exists(&self, jar_id: &Vec<u8>) -> (r: bool)
        requires
            self.wf(),
        ensures
            r == self@.jars.dom().contains(jar_id@),
    {
        self.jars.contains(jar_id)
    }

    /// The token address tips are settled in.
    pub fn get_token(&self) -> (r: Address)
        ensures
            r@ == self@.token,
    {
        self.token.duplicate()
    }

    /// The admin set at deploy time.
    pub fn get_admin(&self) -> (r: Address)
        ensures
            r@ == self@.admin,
    {
        self.admin.duplicate()
    }
}

/// A tip on a stored jar with valid splits pays out exactly the tipped
/// amount.
pub proof fn law_tip_on_stored_jar_pays_amount(v: TipSplitterView, id: Seq<u8>, amount: int)
    requires
        v.jars.dom().contains(id),
        valid_splits(v.jars[id].splits),
        amount > 0,
    ensures
        payments_total(planned_payments(v.jars[id].splits, amount)) == amount,
{
    crate::payout::law_tip_conserves_amount(v.jars[id].splits, amount);
}

/// After a successful `create_jar`, the slug is taken and `get_jar` returns
/// the declared owner and splits; every other slug is as it was.
pub proof fn law_create_then_get(
    v: TipSplitterView,
    signers: Seq<Address>,
    owner: Seq<u8>,
    id: Seq<u8>,
    t: Seq<(Seq<u8>, u32)>,
    other: Seq<u8>,
)
    requires
        create_jar_failure(v, signers, owner, id, t) is None,
        other != id,
    ensures
        !v.jars.dom().contains(id),
        create_jar_post(v, owner, id, t).jars.dom().contains(id),
        create_jar_post(v, owner, id, t).jars[id] == (JarView { owner, splits: t }),
        create_jar_post(v, owner, id, t).jars.dom().contains(other) == v.jars.dom().contains(other),
        create_jar_post(v, owner, id, t).jars[other] == v.jars[other],
{
}

/// A jar is only created, re-split or handed over with the signature of its
/// owner (the declared owner for `create_jar`, the current owner otherwise).
pub proof fn law_changes_need_owner_signature(
    v: TipSplitterView,
    signers: Seq<Address>,
    owner: Seq<u8>,
    id: Seq<u8>,
    t: Seq<(Seq<u8>, u32)>,
)
    ensures
        create_jar_failure(v, signers, owner, id, t) is None ==> signed_by(signers, owner),
        update_splits_failure(v, signers, id, t) is None ==> signed_by(signers, v.jars[id].owner),
        transfer_failure(v, signers, id) is None ==> signed_by(signers, v.jars[id].owner),
{
}

/// `update_splits` keeps the jar registered and its owner unchanged, and
/// applies the very validation `create_jar` does.
pub proof fn law_update_keeps_owner(
    v: TipSplitterView,
    signers: Seq<Address>,
    id: Seq<u8>,
    t: Seq<(Seq<u8>, u32)>,
)
    requires
        v.jars.dom().contains(id),
        signed_by(signers, v.jars[id].owner),
    ensures
        update_splits_failure(v, signers, id, t) is None <==> splits_verdict(t) is Ok,
        update_splits_failure(v, signers, id, t) is None ==> {
            &&& update_splits_post(v, id, t).jars.dom() == v.jars.dom()
            &&& update_splits_post(v, id, t).jars[id].owner == v.jars[id].owner
            &&& update_splits_post(v, id, t).jars[id].splits == t
        },
{
    assert(v.jars.insert(id, JarView { owner: v.jars[id].owner, splits: t }).dom() =~= v.jars.dom());
}

/// Ownership transfer moves control: the jar keeps its splits, and afterwards
/// a call signed only by the previous owner can no longer re-split the jar,
/// while one signed by the new owner can.
pub proof fn law_transfer_moves_control(
    v: TipSplitterView,
    id: Seq<u8>,
    new_owner: Seq<u8>,
    signers: Seq<Address>,
    t: Seq<(Seq<u8>, u32)>,
)
    requires
        v.jars.dom().contains(id),
    ensures
        transfer_post(v, id, new_owner).jars[id].splits == v.jars[id].splits,
        transfer_post(v, id, new_owner).jars[id].owner == new_owner,
        !signed_by(signers, new_owner) ==> update_splits_failure(
            transfer_post(v, id, new_owner),
            signers,
            id,
            t,
        ) == Some(Failure::Unauthorized),
        signed_by(signers, new_owner) ==> update_splits_failure(
            transfer_post(v, id, new_owner),
            signers,
            id,
            t,
        ) == match splits_verdict(t) {
            Err(e) => Some(Failure::Contract(e)),
            Ok(_) => None,
        },
{
}

/// An invocation of an operation that may change the stored state, with its
/// arguments as mathematical values. (`tip` and the reads never change it.)
pub enum Call {
    CreateJar {
        signers: Seq<Address>,
        owner: Seq<u8>,
        jar_id: Seq<u8>,
        splits: Seq<(Seq<u8>, u32)>,
    },
    UpdateSplits { signers: Seq<Address>, jar_id: Seq<u8>, splits: Seq<(Seq<u8>, u32)> },
    TransferJarOwnership { signers: Seq<Address>, jar_id: Seq<u8>, new_owner: Seq<u8> },
}

/// The state after one invocation: the operation's new state when it is
/// accepted, the same state when it is rejected.
pub open spec fn step(v: TipSplitterView, c: Call) -> TipSplitterView {
    match c {
        Call::CreateJar { signers, owner, jar_id, splits } => {
            if create_jar_failure(v, signers, owner, jar_id, splits) is None {
                create_jar_post(v, owner, jar_id, splits)
            } else {
                v
            }
        },
        Call::UpdateSplits { signers, jar_id, splits } => {
            if update_splits_failure(v, signers, jar_id, splits) is None {
                update_splits_post(v, jar_id, splits)
            } else {
                v
            }
        },
        Call::TransferJarOwnership { signers, jar_id, new_owner } => {
            if transfer_failure(v, signers, jar_id) is None {
                transfer_post(v, jar_id, new_owner)
            } else {
                v
            }
        },
    }
}

/// The state after a sequence of invocations, in order.
pub open spec fn run(v: TipSplitterView, cs: Seq<Call>) -> TipSplitterView
    decreases cs.len(),
{
    if cs.len() == 0 {
        v
    } else {
        step(run(v, cs.drop_last()), cs.last())
    }
}

/// The invocation is a successful `update_splits` of the jar under `id`.
pub open spec fn resplits(v: TipSplitterView, c: Call, id: Seq<u8>) -> bool {
    c matches Call::UpdateSplits { signers, jar_id, splits } && jar_id == id
        && update_splits_failure(v, signers, jar_id, splits) is None
}

/// The invocation is a successful `transfer_jar_ownership` of the jar under
/// `id`.
pub open spec fn hands_over(v: TipSplitterView, c: Call, id: Seq<u8>) -> bool {
    c matches Call::TransferJarOwnership { signers, jar_id, new_owner } && jar_id == id
        && transfer_failure(v, signers, jar_id) is None
}

/// Every jar the library writes has a well-formed id and valid splits, and
/// a state whose jars are all valid stays so.
pub proof fn law_library_writes_valid_jars(v: TipSplitterView, c: Call)
    ensures
        (c matches Call::CreateJar { signers, owner, jar_id, splits } && create_jar_failure(
            v,
            signers,
            owner,
            jar_id,
            splits,
        ) is None) ==> jar_id_ok(c->CreateJar_jar_id) && valid_splits(c->CreateJar_splits),
        (c matches Call::UpdateSplits { signers, jar_id, splits } && update_splits_failure(
            v,
            signers,
            jar_id,
            splits,
        ) is None) ==> valid_splits(c->UpdateSplits_splits),
        jars_valid(v.jars) ==> jars_valid(step(v, c).jars),
{
    match c {
        Call::CreateJar { signers, owner, jar_id, splits } => {
            lemma_verdict_ok_iff_valid(splits);
        },
        Call::UpdateSplits { signers, jar_id, splits } => {
            lemma_verdict_ok_iff_valid(splits);
        },
        Call::TransferJarOwnership { .. } => {},
    }
}

/// One invocation keeps the jar under `id`: it stays stored, keeps its
/// splits unless the invocation re-splits it, and keeps its owner unless
/// the invocation hands it over.
proof fn lemma_step_keeps_jar(v: TipSplitterView, c: Call, id: Seq<u8>)
    requires
        v.jars.dom().contains(id),
    ensures
        step(v, c).jars.dom().contains(id),
        !resplits(v, c, id) ==> step(v, c).jars[id].splits == v.jars[id].splits,
        !hands_over(v, c, id) ==> step(v, c).jars[id].owner == v.jars[id].owner,
{
}

/// Over a sequence of invocations, a stored jar stays stored; it keeps its
/// splits unless some invocation re-splits it successfully, and keeps its
/// owner unless some invocation hands it over successfully. So `get_jar`
/// after `create_jar` returns the created splits until a successful
/// `update_splits`, and the created owner until a successful
/// `transfer_jar_ownership`, whatever else happens in between.
pub proof fn law_jar_kept_until_changed(v: TipSplitterView, cs: Seq<Call>, id: Seq<u8>)
    requires
        v.jars.dom().contains(id),
    ensures
        run(v, cs).jars.dom().contains(id),
        (forall|k: int| 0 <= k < cs.len() ==> !resplits(run(v, cs.take(k)), #[trigger] cs[k], id))
            ==> run(v, cs).jars[id].splits == v.jars[id].splits,
        (forall|k: int| 0 <= k < cs.len() ==> !hands_over(run(v, cs.take(k)), #[trigger] cs[k], id))
            ==> run(v, cs).jars[id].owner == v.jars[id].owner,
    decreases cs.len(),
{
    if cs.len() > 0 {
        let d = cs.drop_last();
        let n = cs.len() - 1;
        lemma_jar_kept_prefix(v, cs, id);
        law_jar_kept_until_changed(v, d, id);
        assert(cs.take(n) =~= d);
        lemma_step_keeps_jar(run(v, d), cs.last(), id);
        assert(cs[n] == cs.last());
    }
}

/// What holds of every invocation of a sequence holds of every invocation of
/// its prefix without the last one.
proof fn lemma_jar_kept_prefix(v: TipSplitterView, cs: Seq<Call>, id: Seq<u8>)
    requires
        cs.len() > 0,
    ensures
        (forall|k: int| 0 <= k < cs.len() ==> !resplits(run(v, cs.take(k)), #[trigger] cs[k], id))
            ==> (forall|k: int|
            0 <= k < cs.drop_last().len() ==> !resplits(
                run(v, cs.drop_last().take(k)),
                #[trigger] cs.drop_last()[k],
                id,
            )),
        (forall|k: int| 0 <= k < cs.len() ==> !hands_over(run(v, cs.take(k)), #[trigger] cs[k], id))
            ==> (forall|k: int|
            0 <= k < cs.drop_last().len() ==> !hands_over(
                run(v, cs.drop_last().take(k)),
                #[trigger] cs.drop_last()[k],
                id,
            )),
{
    let d = cs.drop_last();
    assert forall|k: int| 0 <= k < d.len() implies d.take(k) == cs.take(k) && d[k] == cs[k] by {
        assert(d.take(k) =~= cs.take(k));
    }
}

} // verus!
