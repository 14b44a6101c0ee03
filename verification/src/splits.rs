//! The rules a jar's splits obey, and the validator that enforces them.

use vstd::prelude::*;

use crate::types::{
    Address, Error, Split, splits_view, BPS_DENOM, MAX_JAR_ID_LEN, MAX_MESSAGE_LEN,
    MAX_RECIPIENTS,
};

verus! {

/// A share is at least one basis point and at most the whole tip.
pub open spec fn bps_in_range(b: u32) -> bool {
    1 <= b <= BPS_DENOM
}

/// The recipient at `i` appears again later in the list.
pub open spec fn later_duplicate(t: Seq<(Seq<u8>, u32)>, i: int) -> bool {
    exists|j: int| i < j < t.len() && #[trigger] t[j].0 == t[i].0
}

/// The entry at `i` is rejected on its own account: its share is out of
/// range, or its recipient appears again further on.
pub open spec fn defect_at(t: Seq<(Seq<u8>, u32)>, i: int) -> bool {
    !bps_in_range(t[i].1) || later_duplicate(t, i)
}

/// `i` is the first entry with a defect.
pub open spec fn first_defect(t: Seq<(Seq<u8>, u32)>, i: int) -> bool {
    &&& 0 <= i < t.len()
    &&& defect_at(t, i)
    &&& forall|k: int| 0 <= k < i ==> !#[trigger] defect_at(t, k)
}

/// The sum of the shares, in basis points.
pub open spec fn bps_sum(t: Seq<(Seq<u8>, u32)>) -> int
    decreases t.len(),
{
    if t.len() == 0 {
        0
    } else {
        bps_sum(t.drop_last()) + t.last().1
    }
}

/// No recipient appears twice.
pub open spec fn recipients_distinct(t: Seq<(Seq<u8>, u32)>) -> bool {
    forall|i: int, j: int| 0 <= i < j < t.len() ==> t[i].0 != t[j].0
}

/// A list of splits a jar may hold: one to twenty entries, each share between
/// one basis point and 100%, no recipient twice, and shares summing to 100%.
pub open spec fn valid_splits(t: Seq<(Seq<u8>, u32)>) -> bool {
    &&& 1 <= t.len() <= MAX_RECIPIENTS
    &&& forall|i: int| 0 <= i < t.len() ==> bps_in_range(#[trigger] t[i].1)
    &&& recipients_distinct(t)
    &&& bps_sum(t) == BPS_DENOM
}

/// The validator's answer for a list of splits. The checks run in order: an
/// empty list, too many entries, then entry by entry (its share, then whether
/// its recipient recurs later), then the sum; the first that fails decides.
pub open spec fn splits_verdict(t: Seq<(Seq<u8>, u32)>) -> Result<(), Error> {
    if t.len() == 0 {
        Err(Error::InvalidSplits)
    } else if t.len() > MAX_RECIPIENTS {
        Err(Error::TooManyRecipients)
    } else if exists|i: int| first_defect(t, i) {
        let i = choose|i: int| first_defect(t, i);
        if !bps_in_range(t[i].1) {
            Err(Error::InvalidSplits)
        } else {
            Err(Error::DuplicateRecipient)
        }
    } else if bps_sum(t) != BPS_DENOM {
        Err(Error::InvalidSplits)
    } else {
        Ok(())
    }
}

/// A first defect, where there is one, is unique.
proof fn lemma_first_defect_unique(t: Seq<(Seq<u8>, u32)>, i: int, c: int)
    requires
        first_defect(t, i),
        first_defect(t, c),
    ensures
        i == c,
{
    if c < i {
        assert(!defect_at(t, c));
    } else if i < c {
        assert(!defect_at(t, i));
    }
}

/// The sum of a prefix grows by the next share.
proof fn lemma_bps_sum_take(t: Seq<(Seq<u8>, u32)>, i: int)
    requires
        0 <= i < t.len(),
    ensures
        bps_sum(t.take(i + 1)) == bps_sum(t.take(i)) + t[i].1,
{
    assert(t.take(i + 1).drop_last() =~= t.take(i));
}

/// The validator accepts exactly the lists of splits a jar may hold.
pub proof fn lemma_verdict_ok_iff_valid(t: Seq<(Seq<u8>, u32)>)
    ensures
        splits_verdict(t) is Ok <==> valid_splits(t),
{
    if t.len() >= 1 && t.len() <= MAX_RECIPIENTS {
        if exists|i: int| first_defect(t, i) {
            let i = choose|i: int| first_defect(t, i);
            if !bps_in_range(t[i].1) {
            } else {
                let j = choose|j: int| i < j < t.len() && #[trigger] t[j].0 == t[i].0;
                assert(!recipients_distinct(t));
            }
        } else {
            // With no first defect there is no defect at all.
            assert forall|i: int| 0 <= i < t.len() implies !defect_at(t, i) by {
                lemma_no_first_defect(t, i);
            }
            assert forall|i: int, j: int| 0 <= i < j < t.len() implies t[i].0 != t[j].0 by {
                assert(!defect_at(t, i));
            }
            assert forall|i: int| 0 <= i < t.len() implies bps_in_range(#[trigger] t[i].1) by {
                assert(!defect_at(t, i));
            }
        }
    }
}

/// Without a first defect no entry has a defect.
proof fn lemma_no_first_defect(t: Seq<(Seq<u8>, u32)>, i: int)
    requires
        0 <= i < t.len(),
        !exists|c: int| first_defect(t, c),
    ensures
        !defect_at(t, i),
    decreases i,
{
    if defect_at(t, i) {
        assert forall|k: int| 0 <= k < i implies !#[trigger] defect_at(t, k) by {
            lemma_no_first_defect(t, k);
        }
        assert(first_defect(t, i));
    }
}

/// Removing entry `j` takes its share out of the sum.
proof fn lemma_bps_sum_remove(t: Seq<(Seq<u8>, u32)>, j: int)
    requires
        0 <= j < t.len(),
    ensures
        bps_sum(t) == bps_sum(t.remove(j)) + t[j].1,
    decreases t.len(),
{
    if j < t.len() - 1 {
        let d = t.drop_last();
        lemma_bps_sum_remove(d, j);
        assert(t.remove(j).drop_last() =~= d.remove(j));
        assert(t.remove(j).last() == t.last());
    } else {
        assert(t.remove(j) =~= t.drop_last());
    }
}

/// Two lists holding the same entries, in any order, have the same sum.
proof fn lemma_bps_sum_permutation(s: Seq<(Seq<u8>, u32)>, p: Seq<(Seq<u8>, u32)>)
    requires
        s.to_multiset() == p.to_multiset(),
    ensures
        bps_sum(s) == bps_sum(p),
    decreases s.len(),
{
    broadcast use vstd::seq_lib::group_to_multiset_ensures;

    if s.len() == 0 {
        assert(p.to_multiset().len() == 0);
    } else {
        let x = s.last();
        let n = s.len() - 1;
        assert(s.remove(n) =~= s.drop_last());
        assert(s.contains(x)) by {
            assert(s[n] == x);
        }
        assert(s.to_multiset().count(x) > 0);
        assert(p.to_multiset().count(x) > 0);
        assert(p.contains(x));
        let j = choose|j: int| 0 <= j < p.len() && p[j] == x;
        assert(s.drop_last().to_multiset() =~= p.remove(j).to_multiset());
        lemma_bps_sum_permutation(s.drop_last(), p.remove(j));
        lemma_bps_sum_remove(p, j);
    }
}

/// A list valid as splits stays valid when its entries are reordered.
proof fn lemma_valid_splits_permutation(s: Seq<(Seq<u8>, u32)>, p: Seq<(Seq<u8>, u32)>)
    requires
        s.to_multiset() == p.to_multiset(),
        valid_splits(s),
    ensures
        valid_splits(p),
{
    broadcast use vstd::seq_lib::group_to_multiset_ensures;

    assert(s.len() == p.len()) by {
        assert(s.to_multiset().len() == p.to_multiset().len());
    }
    lemma_bps_sum_permutation(s, p);
    assert forall|i: int| 0 <= i < p.len() implies bps_in_range(#[trigger] p[i].1) by {
        assert(p.contains(p[i]));
        assert(p.to_multiset().count(p[i]) > 0);
        assert(s.to_multiset().count(p[i]) > 0);
        assert(s.contains(p[i]));
    }
    assert(s.no_duplicates()) by {
        assert forall|a: int, b: int| 0 <= a < s.len() && 0 <= b < s.len() && a != b implies s[a]
            != s[b] by {
            if a < b {
                assert(s[a].0 != s[b].0);
            } else {
                assert(s[b].0 != s[a].0);
            }
        }
    }
    s.lemma_multiset_has_no_duplicates();
    p.lemma_multiset_has_no_duplicates_conv();
    assert forall|a: int, b: int| 0 <= a < b < p.len() implies p[a].0 != p[b].0 by {
        assert(p[a] != p[b]);
        assert(p.contains(p[a]));
        assert(p.contains(p[b]));
        assert(p.to_multiset().count(p[a]) > 0);
        assert(p.to_multiset().count(p[b]) > 0);
        assert(s.to_multiset().count(p[a]) > 0);
        assert(s.to_multiset().count(p[b]) > 0);
        assert(s.contains(p[a]));
        assert(s.contains(p[b]));
        let ja = choose|j: int| 0 <= j < s.len() && s[j] == p[a];
        let jb = choose|j: int| 0 <= j < s.len() && s[j] == p[b];
        if ja < jb {
            assert(s[ja].0 != s[jb].0);
        } else {
            assert(s[jb].0 != s[ja].0);
        }
    }
}

/// Acceptance does not depend on the order of the entries: a reordering of a
/// list of splits is accepted exactly when the list is.
pub proof fn law_acceptance_ignores_order(s: Seq<(Seq<u8>, u32)>, p: Seq<(Seq<u8>, u32)>)
    requires
        s.to_multiset() == p.to_multiset(),
    ensures
        valid_splits(s) <==> valid_splits(p),
        splits_verdict(s) is Ok <==> splits_verdict(p) is Ok,
{
    if valid_splits(s) {
        lemma_valid_splits_permutation(s, p);
    }
    if valid_splits(p) {
        lemma_valid_splits_permutation(p, s);
    }
    lemma_verdict_ok_iff_valid(s);
    lemma_verdict_ok_iff_valid(p);
}

/// The sum of shares is built entry by entry: nothing for no entries, and
/// each further entry adds its share.
pub proof fn law_bps_sum_adds_shares(t: Seq<(Seq<u8>, u32)>, x: (Seq<u8>, u32))
    ensures
        bps_sum(Seq::<(Seq<u8>, u32)>::empty()) == 0,
        bps_sum(t.push(x)) == bps_sum(t) + x.1,
{
    assert(t.push(x).drop_last() =~= t);
}

/// A list of splits is accepted exactly when it has 1 to 20 entries, every
/// share is between 1 and 10_000 basis points, no recipient appears twice,
/// and the shares sum to 10_000.
pub proof fn law_validation_accepts_exactly(t: Seq<(Seq<u8>, u32)>)
    ensures
        splits_verdict(t) is Ok <==> {
            &&& 1 <= t.len() <= 20
            &&& forall|i: int| 0 <= i < t.len() ==> 1 <= #[trigger] t[i].1 <= 10_000
            &&& forall|i: int, j: int| 0 <= i < j < t.len() ==> t[i].0 != t[j].0
            &&& bps_sum(t) == 10_000
        },
{
    lemma_verdict_ok_iff_valid(t);
}

/// Which error a rejected list of splits gets: an empty list and a wrong sum
/// are `InvalidSplits`, more than 20 entries `TooManyRecipients`; with every
/// share in range a repeated recipient is `DuplicateRecipient`, and with
/// distinct recipients a share out of range is `InvalidSplits`.
pub proof fn law_validation_errors(t: Seq<(Seq<u8>, u32)>)
    ensures
        t.len() == 0 ==> splits_verdict(t) == Err::<(), Error>(Error::InvalidSplits),
        t.len() > 20 ==> splits_verdict(t) == Err::<(), Error>(Error::TooManyRecipients),
        (1 <= t.len() <= 20 && (forall|i: int| 0 <= i < t.len() ==> 1 <= #[trigger] t[i].1 <= 10_000)
            && (exists|i: int, j: int| 0 <= i < j < t.len() && t[i].0 == t[j].0)) ==> splits_verdict(
            t,
        ) == Err::<(), Error>(Error::DuplicateRecipient),
        (1 <= t.len() <= 20 && (forall|i: int, j: int| 0 <= i < j < t.len() ==> t[i].0 != t[j].0)
            && (exists|i: int| 0 <= i < t.len() && !(1 <= #[trigger] t[i].1 <= 10_000)))
            ==> splits_verdict(t) == Err::<(), Error>(Error::InvalidSplits),
        (1 <= t.len() <= 20 && (forall|i: int| 0 <= i < t.len() ==> 1 <= #[trigger] t[i].1 <= 10_000)
            && (forall|i: int, j: int| 0 <= i < j < t.len() ==> t[i].0 != t[j].0) && bps_sum(t)
            != 10_000) ==> splits_verdict(t) == Err::<(), Error>(Error::InvalidSplits),
{
    if 1 <= t.len() <= 20 {
        if (forall|i: int| 0 <= i < t.len() ==> 1 <= #[trigger] t[i].1 <= 10_000) && (exists|i: int, j: int|
            0 <= i < j < t.len() && t[i].0 == t[j].0) {
            let (i, j) = choose|i: int, j: int| 0 <= i < j < t.len() && t[i].0 == t[j].0;
            assert(t[j].0 == t[i].0);
            assert(defect_at(t, i));
            if !exists|c: int| first_defect(t, c) {
                lemma_no_first_defect(t, i);
            }
            let c = choose|c: int| first_defect(t, c);
            assert(1 <= t[c].1 <= 10_000);
        }
        if (forall|i: int, j: int| 0 <= i < j < t.len() ==> t[i].0 != t[j].0) && (exists|i: int|
            0 <= i < t.len() && !(1 <= #[trigger] t[i].1 <= 10_000)) {
            let i = choose|i: int| 0 <= i < t.len() && !(1 <= #[trigger] t[i].1 <= 10_000);
            assert(defect_at(t, i));
            if !exists|c: int| first_defect(t, c) {
                lemma_no_first_defect(t, i);
            }
            let c = choose|c: int| first_defect(t, c);
            if later_duplicate(t, c) {
                let j = choose|j: int| c < j < t.len() && #[trigger] t[j].0 == t[c].0;
                assert(t[c].0 != t[j].0);
            }
        }
        if (forall|i: int| 0 <= i < t.len() ==> 1 <= #[trigger] t[i].1 <= 10_000) && (forall|i: int, j: int|
            0 <= i < j < t.len() ==> t[i].0 != t[j].0) {
            if exists|c: int| first_defect(t, c) {
                let c = choose|c: int| first_defect(t, c);
                assert(1 <= t[c].1 <= 10_000);
                let j = choose|j: int| c < j < t.len() && #[trigger] t[j].0 == t[c].0;
                assert(t[c].0 != t[j].0);
            }
        }
    }
}

/// A jar id is accepted exactly when it is 1 to 64 bytes long, whatever the
/// bytes are.
pub proof fn law_jar_id_by_length_only(id: Seq<u8>)
    ensures
        jar_id_ok(id) <==> 1 <= id.len() <= 64,
        new_jar_verdict(false, id, seq![(Seq::<u8>::empty(), 10_000u32)]) is Ok <==> 1 <= id.len()
            <= 64,
{
    let t = seq![(Seq::<u8>::empty(), 10_000u32)];
    assert(t.drop_last() =~= Seq::<(Seq<u8>, u32)>::empty());
    assert(bps_sum(t.drop_last()) == 0);
    assert(t.last().1 == 10_000u32);
    assert(bps_sum(t) == 10_000);
    assert(t[0].1 == 10_000u32);
    assert(valid_splits(t));
    lemma_verdict_ok_iff_valid(t);
}

/// An address has signed exactly when it appears among the signers, at any
/// position and whoever else signed.
pub proof fn law_signing_is_membership(signers: Seq<Address>, who: Seq<u8>, extra: Seq<Address>)
    ensures
        signed_by(signers, who) <==> exists|i: int| 0 <= i < signers.len() && #[trigger] signers[i]@
            == who,
        signed_by(signers, who) ==> signed_by(signers + extra, who),
        signed_by(signers, who) ==> signed_by(extra + signers, who),
{
    if signed_by(signers, who) {
        let i = choose|i: int| 0 <= i < signers.len() && #[trigger] signers[i]@ == who;
        assert((signers + extra)[i] == signers[i]);
        assert((extra + signers)[extra.len() + i] == signers[i]);
    }
}

/// Validate that splits are non-empty, within bounds, carry a share that is
/// neither zero nor above 100% each, name no recipient twice, and sum to
/// exactly 100%.
pub fn validate_splits(splits: &Vec<Split>) -> (r: Result<(), Error>)
    ensures
        r == splits_verdict(splits_view(splits@)),
        r is Ok <==> valid_splits(splits_view(splits@)),
{
    let ghost t = splits_view(splits@);
    proof {
        lemma_verdict_ok_iff_valid(t);
    }
    let n = splits.len();
    if n == 0 {
        return Err(Error::InvalidSplits);
    }
    if n > MAX_RECIPIENTS as usize {
        return Err(Error::TooManyRecipients);
    }
    let mut total: u32 = 0;
    let mut i: usize = 0;
    while i < n
        invariant
            t == splits_view(splits@),
            n == t.len(),
            1 <= n <= MAX_RECIPIENTS,
            i <= n,
            forall|k: int| 0 <= k < i ==> !#[trigger] defect_at(t, k),
            total == bps_sum(t.take(i as int)),
            total <= BPS_DENOM * i,
        decreases n - i,
    {
        let bps = splits[i].bps;
        assert(t[i as int].1 == bps);
        if bps == 0 || bps > BPS_DENOM {
            proof {
                assert(first_defect(t, i as int));
                let c = choose|c: int| first_defect(t, c);
                lemma_first_defect_unique(t, i as int, c);
            }
            return Err(Error::InvalidSplits);
        }
        proof {
            lemma_bps_sum_take(t, i as int);
        }
        total = match total.checked_add(bps) {
            Some(s) => s,
            None => {
                return Err(Error::InvalidSplits);
            },
        };
        let mut j: usize = i + 1;
        while j < n
            invariant
                t == splits_view(splits@),
                n == t.len(),
                1 <= n <= MAX_RECIPIENTS,
                i < j <= n,
                forall|k: int| 0 <= k < i ==> !#[trigger] defect_at(t, k),
                bps_in_range(t[i as int].1),
                forall|k: int| i < k < j ==> t[k].0 != t[i as int].0,
            decreases n - j,
        {
            if splits[j].to.same(&splits[i].to) {
                proof {
                    assert(t[j as int].0 == t[i as int].0);
                    assert(later_duplicate(t, i as int));
                    assert(first_defect(t, i as int));
                    let c = choose|c: int| first_defect(t, c);
                    lemma_first_defect_unique(t, i as int, c);
                }
                return Err(Error::DuplicateRecipient);
            }
            j = j + 1;
        }
        assert(!later_duplicate(t, i as int));
        assert(!defect_at(t, i as int));
        i = i + 1;
    }
    proof {
        assert(t.take(n as int) =~= t);
        if exists|c: int| first_defect(t, c) {
            let c = choose|c: int| first_defect(t, c);
            assert(!defect_at(t, c));
        }
    }
    if total != BPS_DENOM {
        return Err(Error::InvalidSplits);
    }
    Ok(())
}

/// A jar id (public slug) is one to `MAX_JAR_ID_LEN` bytes long.
pub open spec fn jar_id_ok(id: Seq<u8>) -> bool {
    1 <= id.len() <= MAX_JAR_ID_LEN
}

/// Validate a jar id: empty ids and ids over `MAX_JAR_ID_LEN` bytes are
/// rejected with `InvalidJarId`.
pub fn validate_jar_id(jar_id: &Vec<u8>) -> (r: Result<(), Error>)
    ensures
        r is Ok <==> jar_id_ok(jar_id@),
        r is Err ==> r == Err::<(), Error>(Error::InvalidJarId),
{
    if jar_id.len() == 0 || jar_id.len() > MAX_JAR_ID_LEN as usize {
        Err(Error::InvalidJarId)
    } else {
        Ok(())
    }
}

/// What a new jar must pass, in order: a well-formed id, a free slug, then
/// valid splits.
pub open spec fn new_jar_verdict(exists: bool, id: Seq<u8>, t: Seq<(Seq<u8>, u32)>) -> Result<(), Error> {
    if !jar_id_ok(id) {
        Err(Error::InvalidJarId)
    } else if exists {
        Err(Error::JarExists)
    } else {
        splits_verdict(t)
    }
}

/// The checks `create_jar` makes once the owner has signed: the id, whether
/// the slug is taken (`exists`), then the splits.
pub fn check_new_jar(exists: bool, jar_id: &Vec<u8>, splits: &Vec<Split>) -> (r: Result<(), Error>)
    ensures
        r == new_jar_verdict(exists, jar_id@, splits_view(splits@)),
{
    validate_jar_id(jar_id)?;
    if exists {
        return Err(Error::JarExists);
    }
    validate_splits(splits)
}

/// What a tip request must pass before the jar is looked up: a positive amount
/// and a message of at most `MAX_MESSAGE_LEN` bytes.
pub open spec fn tip_request_verdict(amount: i128, message_len: nat) -> Result<(), Error> {
    if amount <= 0 {
        Err(Error::InvalidAmount)
    } else if message_len > MAX_MESSAGE_LEN {
        Err(Error::MessageTooLong)
    } else {
        Ok(())
    }
}

/// Check a tip's amount and message, before any funds move.
pub fn check_tip_request(amount: i128, message: &Vec<u8>) -> (r: Result<(), Error>)
    ensures
        r == tip_request_verdict(amount, message@.len()),
{
    if amount <= 0 {
        return Err(Error::InvalidAmount);
    }
    if message.len() > MAX_MESSAGE_LEN as usize {
        return Err(Error::MessageTooLong);
    }
    Ok(())
}

/// Whether `who` is among the addresses that authorized the invocation.
pub open spec fn signed_by(signers: Seq<Address>, who: Seq<u8>) -> bool {
    exists|i: int| 0 <= i < signers.len() && #[trigger] signers[i]@ == who
}

/// Whether `who` authorized the invocation that `signers` carries.
pub fn has_signed(signers: &Vec<Address>, who: &Address) -> (r: bool)
    ensures
        r == signed_by(signers@, who@),
{
    let n = signers.len();
    let mut i: usize = 0;
    while i < n
        invariant
            n == signers@.len(),
            i <= n,
            forall|k: int| 0 <= k < i ==> signers@[k]@ != who@,
        decreases n - i,
    {
        if signers[i].same(who) {
            return true;
        }
        i = i + 1;
    }
    false
}

} // verus!
