//! What each operation of the contract accepts, rejects and changes, stated
//! over its inputs alone.

use vstd::prelude::*;

use crate::contract::{
    create_jar_failure, create_jar_post, tip_failure, transfer_failure, transfer_post,
    update_splits_failure, update_splits_post, TipSplitterView,
};
use crate::splits::{
    bps_sum, law_jar_id_by_length_only, law_signing_is_membership, law_validation_accepts_exactly,
    law_validation_errors,
};
use crate::types::{Address, Error, Failure, JarView};

verus! {

/// `create_jar` succeeds whenever the declared owner signed, the id is 1 to
/// 64 bytes and free, and the splits are valid (1 to 20 entries, each share
/// 1 to 10_000 basis points, no recipient twice, summing to 10_000) —
/// whoever the recipients are, the owner among them or not. The jar is then
/// stored exactly as declared and nothing else changes.
pub proof fn law_create_jar_succeeds(
    v: TipSplitterView,
    signers: Seq<Address>,
    owner: Seq<u8>,
    id: Seq<u8>,
    t: Seq<(Seq<u8>, u32)>,
)
    requires
        exists|k: int| 0 <= k < signers.len() && #[trigger] signers[k]@ == owner,
        1 <= id.len() <= 64,
        !v.jars.dom().contains(id),
        1 <= t.len() <= 20,
        forall|i: int| 0 <= i < t.len() ==> 1 <= #[trigger] t[i].1 <= 10_000,
        forall|i: int, j: int| 0 <= i < j < t.len() ==> t[i].0 != t[j].0,
        bps_sum(t) == 10_000,
    ensures
        create_jar_failure(v, signers, owner, id, t) is None,
        create_jar_post(v, owner, id, t).jars == v.jars.insert(id, JarView { owner, splits: t }),
        create_jar_post(v, owner, id, t).admin == v.admin,
        create_jar_post(v, owner, id, t).token == v.token,
{
    law_signing_is_membership(signers, owner, Seq::empty());
    law_jar_id_by_length_only(id);
    law_validation_accepts_exactly(t);
}

/// `create_jar` is rejected, in this order: without the declared owner's
/// signature (`Unauthorized`), for an id that is empty or over 64 bytes
/// (`InvalidJarId`), for a taken slug (`JarExists`), and for splits that
/// fail validation, with the validator's error.
pub proof fn law_create_jar_rejections(
    v: TipSplitterView,
    signers: Seq<Address>,
    owner: Seq<u8>,
    id: Seq<u8>,
    t: Seq<(Seq<u8>, u32)>,
)
    ensures
        (forall|k: int| 0 <= k < signers.len() ==> #[trigger] signers[k]@ != owner)
            ==> create_jar_failure(v, signers, owner, id, t) == Some(Failure::Unauthorized),
        (exists|k: int| 0 <= k < signers.len() && #[trigger] signers[k]@ == owner) ==> {
            &&& !(1 <= id.len() <= 64) ==> create_jar_failure(v, signers, owner, id, t) == Some(
                Failure::Contract(Error::InvalidJarId),
            )
            &&& (1 <= id.len() <= 64 && v.jars.dom().contains(id)) ==> create_jar_failure(
                v,
                signers,
                owner,
                id,
                t,
            ) == Some(Failure::Contract(Error::JarExists))
            &&& (1 <= id.len() <= 64 && !v.jars.dom().contains(id) && t.len() == 0)
                ==> create_jar_failure(v, signers, owner, id, t) == Some(
                Failure::Contract(Error::InvalidSplits),
            )
            &&& (1 <= id.len() <= 64 && !v.jars.dom().contains(id) && t.len() > 20)
                ==> create_jar_failure(v, signers, owner, id, t) == Some(
                Failure::Contract(Error::TooManyRecipients),
            )
        },
{
    law_signing_is_membership(signers, owner, Seq::empty());
    law_jar_id_by_length_only(id);
    law_validation_errors(t);
}

/// `update_splits` by the jar's owner (whoever else signed too) with valid
/// splits always succeeds: the jar keeps its owner and takes the new splits,
/// and nothing else changes. It is rejected for a missing jar
/// (`JarNotFound`), then without the owner's signature (`Unauthorized`).
pub proof fn law_update_splits_by_owner(
    v: TipSplitterView,
    signers: Seq<Address>,
    id: Seq<u8>,
    t: Seq<(Seq<u8>, u32)>,
)
    ensures
        !v.jars.dom().contains(id) ==> update_splits_failure(v, signers, id, t) == Some(
            Failure::Contract(Error::JarNotFound),
        ),
        (v.jars.dom().contains(id) && forall|k: int|
            0 <= k < signers.len() ==> #[trigger] signers[k]@ != v.jars[id].owner)
            ==> update_splits_failure(v, signers, id, t) == Some(Failure::Unauthorized),
        (v.jars.dom().contains(id) && (exists|k: int|
            0 <= k < signers.len() && #[trigger] signers[k]@ == v.jars[id].owner) && 1 <= t.len()
            <= 20 && (forall|i: int| 0 <= i < t.len() ==> 1 <= #[trigger] t[i].1 <= 10_000) && (forall|
            i: int,
            j: int,
        | 0 <= i < j < t.len() ==> t[i].0 != t[j].0) && bps_sum(t) == 10_000) ==> {
            &&& update_splits_failure(v, signers, id, t) is None
            &&& update_splits_post(v, id, t).jars == v.jars.insert(
                id,
                JarView { owner: v.jars[id].owner, splits: t },
            )
            &&& update_splits_post(v, id, t).admin == v.admin
            &&& update_splits_post(v, id, t).token == v.token
        },
{
    if v.jars.dom().contains(id) {
        law_signing_is_membership(signers, v.jars[id].owner, Seq::empty());
    }
    law_validation_accepts_exactly(t);
}

/// `transfer_jar_ownership` of a stored jar signed by its current owner always
/// succeeds, whatever the jar's splits: `new_owner` becomes the owner and the
/// splits stay. It is rejected for a missing jar (`JarNotFound`), then
/// without the current owner's signature (`Unauthorized`); nothing else.
pub proof fn law_transfer_by_owner(
    v: TipSplitterView,
    signers: Seq<Address>,
    id: Seq<u8>,
    new_owner: Seq<u8>,
)
    ensures
        !v.jars.dom().contains(id) ==> transfer_failure(v, signers, id) == Some(
            Failure::Contract(Error::JarNotFound),
        ),
        (v.jars.dom().contains(id) && forall|k: int|
            0 <= k < signers.len() ==> #[trigger] signers[k]@ != v.jars[id].owner)
            ==> transfer_failure(v, signers, id) == Some(Failure::Unauthorized),
        (v.jars.dom().contains(id) && exists|k: int|
            0 <= k < signers.len() && #[trigger] signers[k]@ == v.jars[id].owner) ==> {
            &&& transfer_failure(v, signers, id) is None
            &&& transfer_post(v, id, new_owner).jars == v.jars.insert(
                id,
                JarView { owner: new_owner, splits: v.jars[id].splits },
            )
            &&& transfer_post(v, id, new_owner).admin == v.admin
            &&& transfer_post(v, id, new_owner).token == v.token
        },
{
    if v.jars.dom().contains(id) {
        law_signing_is_membership(signers, v.jars[id].owner, Seq::empty());
    }
}

/// `tip` fails only for these reasons, in this order: the sender did not sign
/// (`Unauthorized`), the amount is not positive (`InvalidAmount`), the message
/// is over 280 bytes (`MessageTooLong`), the jar is missing (`JarNotFound`).
/// When all four checks pass it is accepted, whatever the shares round to.
pub proof fn law_tip_checks(
    v: TipSplitterView,
    signers: Seq<Address>,
    from: Seq<u8>,
    id: Seq<u8>,
    amount: i128,
    message_len: nat,
)
    ensures
        (forall|k: int| 0 <= k < signers.len() ==> #[trigger] signers[k]@ != from) ==> tip_failure(
            v,
            signers,
            from,
            id,
            amount,
            message_len,
        ) == Some(Failure::Unauthorized),
        (exists|k: int| 0 <= k < signers.len() && #[trigger] signers[k]@ == from) ==> {
            &&& amount <= 0 ==> tip_failure(v, signers, from, id, amount, message_len) == Some(
                Failure::Contract(Error::InvalidAmount),
            )
            &&& (amount > 0 && message_len > 280) ==> tip_failure(
                v,
                signers,
                from,
                id,
                amount,
                message_len,
            ) == Some(Failure::Contract(Error::MessageTooLong))
            &&& (amount > 0 && message_len <= 280 && !v.jars.dom().contains(id)) ==> tip_failure(
                v,
                signers,
                from,
                id,
                amount,
                message_len,
            ) == Some(Failure::Contract(Error::JarNotFound))
            &&& (amount > 0 && message_len <= 280 && v.jars.dom().contains(id)) ==> tip_failure(
                v,
                signers,
                from,
                id,
                amount,
                message_len,
            ) is None
        },
{
    law_signing_is_membership(signers, from, Seq::empty());
}

} // verus!
