use vstd::prelude::*;

use crate::network::Message;
use crate::types::{Transaction, TransactionInput, TransactionOutput};
use std::path::PathBuf;
use uuid::Uuid;

verus! {

#[verifier::external_type_specification]
#[verifier::external_body]
pub struct ExPathBuf(PathBuf);

/// The files that hold one of the wallet's key pairs.
pub struct Key {
    pub public: PathBuf,
    pub private: PathBuf,
}

/// A contact, with the file that holds its public key.
pub struct Recipient {
    pub name: String,
    pub key: PathBuf,
}

/// A contact whose public key has been read.
#[derive(Debug)]
pub struct LoadedRecipient {
    pub name: String,
    pub key: [u8; 33],
}

impl Recipient {
    /// Pairs this contact's name with its public key, read from `self.key`.
    pub fn load(&self, key: [u8; 33]) -> (loaded: LoadedRecipient)
        ensures
            loaded.name@ == self.name@,
            loaded.key == key,
    {
        LoadedRecipient { name: self.name.clone(), key }
    }
}

/// How the fee of a transaction is computed from its amount.
#[derive(Clone, Copy, Debug, PartialEq, Eq, Structural)]
pub enum FeeType {
    Fixed,
    Percent,
}

/// Why the wallet could not do what it was asked.
#[derive(Clone, Copy, Debug, PartialEq, Eq, Structural)]
pub enum WalletError {
    /// The unspent outputs that are not marked do not cover amount and fee.
    InsufficientFunds,
    /// No contact has the given name.
    RecipientNotFound,
    /// The node answered a request with a message of another kind.
    UnexpectedResponse,
}

/// One of the wallet's key pairs; the private key is held as its bytes.
pub struct LoadedKey {
    pub public: [u8; 33],
    pub private: Vec<u8>,
}

/// An unspent output that belongs to one of the wallet's keys, whether the
/// node has marked it as already being spent, and the hash by which an input
/// refers to it.
#[derive(Clone, Copy)]
pub struct UtxoEntry {
    pub marked: bool,
    pub output: TransactionOutput,
    pub hash: [u8; 32],
}

/// The wallet's keys and, per public key, its unspent outputs. Each public
/// key occurs once, and the keys ascend in byte order, which is the order in
/// which the wallet walks them.
pub struct UtxoStore {
    my_keys: Vec<LoadedKey>,
    utxos: Vec<([u8; 33], Vec<UtxoEntry>)>,
}

/// Byte strings in lexicographic order, as `Ord` orders byte arrays.
pub open spec fn bytes_less(a: Seq<u8>, b: Seq<u8>) -> bool
    decreases a.len(),
{
    if a.len() == 0 || b.len() == 0 {
        a.len() < b.len()
    } else if a[0] == b[0] {
        bytes_less(a.drop_first(), b.drop_first())
    } else {
        a[0] < b[0]
    }
}

/// Public keys in the order of their bytes.
pub open spec fn key_less(a: [u8; 33], b: [u8; 33]) -> bool {
    bytes_less(a@, b@)
}

/// The groups' keys strictly ascend; in particular no key occurs twice.
pub open spec fn keys_ascending(groups: Seq<([u8; 33], Vec<UtxoEntry>)>) -> bool {
    forall|i: int, j: int| 0 <= i < j < groups.len() ==> key_less(groups[i].0, groups[j].0)
}

/// `after` is `before` with the group `(public, outputs)` put at `p`: over
/// the group already there under `public`, or in a new place.
pub open spec fn inserted_at(
    before: Seq<([u8; 33], Vec<UtxoEntry>)>,
    after: Seq<([u8; 33], Vec<UtxoEntry>)>,
    public: [u8; 33],
    outputs: Vec<UtxoEntry>,
    p: int,
) -> bool {
    &&& 0 <= p <= before.len()
    &&& {
        ||| (p < before.len() && before[p].0 == public && after == before.update(
            p,
            (public, outputs),
        ))
        ||| ((p == before.len() || before[p].0 != public) && after == before.insert(
            p,
            (public, outputs),
        ))
    }
}

/// How `insert_utxos` changes the groups: the outputs under `public` are set
/// to `outputs`, in place of any held before, or in a new place.
pub open spec fn is_insertion(
    before: Seq<([u8; 33], Vec<UtxoEntry>)>,
    after: Seq<([u8; 33], Vec<UtxoEntry>)>,
    public: [u8; 33],
    outputs: Vec<UtxoEntry>,
) -> bool {
    exists|p: int| inserted_at(before, after, public, outputs, p)
}

proof fn lemma_bytes_less_irreflexive(a: Seq<u8>)
    ensures
        !bytes_less(a, a),
    decreases a.len(),
{
    if a.len() > 0 {
        lemma_bytes_less_irreflexive(a.drop_first());
    }
}

proof fn lemma_bytes_less_transitive(a: Seq<u8>, b: Seq<u8>, c: Seq<u8>)
    requires
        bytes_less(a, b),
        bytes_less(b, c),
    ensures
        bytes_less(a, c),
    decreases a.len(),
{
    if a.len() > 0 && b.len() > 0 && c.len() > 0 && a[0] == b[0] && b[0] == c[0] {
        lemma_bytes_less_transitive(a.drop_first(), b.drop_first(), c.drop_first());
    }
}

proof fn lemma_bytes_less_total(a: Seq<u8>, b: Seq<u8>)
    requires
        a.len() == b.len(),
        a != b,
    ensures
        bytes_less(a, b) || bytes_less(b, a),
    decreases a.len(),
{
    if a.len() == 0 {
        assert(a =~= b);
    } else if a[0] == b[0] {
        if a.drop_first() == b.drop_first() {
            assert(a =~= seq![a[0]] + a.drop_first());
            assert(b =~= seq![b[0]] + b.drop_first());
        }
        lemma_bytes_less_total(a.drop_first(), b.drop_first());
    }
}

/// Whether `a` comes before `b` in byte order.
fn key_before(a: &[u8; 33], b: &[u8; 33]) -> (r: bool)
    ensures
        r == key_less(*a, *b),
{
    let mut i: usize = 0;
    assert(a@.skip(0) =~= a@);
    assert(b@.skip(0) =~= b@);
    while i < 33
        invariant
            i <= 33,
            key_less(*a, *b) == bytes_less(a@.skip(i as int), b@.skip(i as int)),
        decreases 33 - i,
    {
        proof {
            assert(a@.skip(i as int).drop_first() =~= a@.skip(i + 1));
            assert(b@.skip(i as int).drop_first() =~= b@.skip(i + 1));
        }
        if a[i] != b[i] {
            return a[i] < b[i];
        }
        i = i + 1;
    }
    assert(a@.skip(33) =~= Seq::<u8>::empty());
    assert(b@.skip(33) =~= Seq::<u8>::empty());
    false
}


/// All outputs of the store, each with the public key it belongs to, in the
/// order in which the wallet walks them.
pub open spec fn flatten(groups: Seq<([u8; 33], Vec<UtxoEntry>)>) -> Seq<([u8; 33], UtxoEntry)>
    decreases groups.len(),
{
    if groups.len() == 0 {
        Seq::empty()
    } else {
        flatten(groups.drop_last()) + group_items(groups.last())
    }
}

/// The outputs of one public key, each paired with that key.
pub open spec fn group_items(group: ([u8; 33], Vec<UtxoEntry>)) -> Seq<([u8; 33], UtxoEntry)> {
    group.1@.map_values(|u: UtxoEntry| (group.0, u))
}

/// The total value of some outputs.
pub open spec fn value_sum(items: Seq<([u8; 33], UtxoEntry)>) -> nat
    decreases items.len(),
{
    if items.len() == 0 {
        0
    } else {
        value_sum(items.drop_last()) + items.last().1.output.value as nat
    }
}

/// The total value of the outputs that are not marked.
pub open spec fn unmarked_sum(items: Seq<([u8; 33], UtxoEntry)>) -> nat
    decreases items.len(),
{
    if items.len() == 0 {
        0
    } else if items.last().1.marked {
        unmarked_sum(items.drop_last())
    } else {
        unmarked_sum(items.drop_last()) + items.last().1.output.value as nat
    }
}

/// The outputs that the wallet spends to pay `total`: walking the outputs in
/// order, it takes each one that is not marked as long as what it has taken
/// so far is below `total`.
pub open spec fn picked(items: Seq<([u8; 33], UtxoEntry)>, total: nat) -> Seq<
    ([u8; 33], UtxoEntry),
>
    decreases items.len(),
{
    if items.len() == 0 {
        Seq::empty()
    } else {
        let before = picked(items.drop_last(), total);
        let x = items.last();
        if !x.1.marked && value_sum(before) < total {
            before.push(x)
        } else {
            before
        }
    }
}

/// Whether `j` is the first of the keys whose public key is `public`.
pub open spec fn is_first_key(keys: Seq<LoadedKey>, public: [u8; 33], j: int) -> bool {
    &&& 0 <= j < keys.len()
    &&& keys[j].public == public
    &&& forall|k: int| 0 <= k < j ==> keys[k].public != public
}

/// Whether `public` is the public key of one of `keys`.
pub open spec fn is_key_of(keys: Seq<LoadedKey>, public: [u8; 33]) -> bool {
    exists|j: int| 0 <= j < keys.len() && keys[j].public == public
}

/// The private key of the first key pair whose public key is `public`.
pub open spec fn private_key_of(keys: Seq<LoadedKey>, public: [u8; 33]) -> Vec<u8> {
    keys[choose|j: int| is_first_key(keys, public, j)].private
}

/// The total value of the outputs of a transaction.
pub open spec fn outputs_sum(outputs: Seq<TransactionOutput>) -> nat
    decreases outputs.len(),
{
    if outputs.len() == 0 {
        0
    } else {
        outputs_sum(outputs.drop_last()) + outputs.last().value as nat
    }
}

/// What a successful payment of `amount`, with `total` the amount plus the
/// fee, consists of: one input per spent output, in order, each naming the
/// output by its hash and signed with the private key of its owner; the
/// payment to the recipient; and, where the spent outputs exceed `total`, the
/// change back to the wallet's first key.
pub open spec fn is_payment<F: Fn(&[u8; 32], &Vec<u8>) -> [u8; 64]>(
    tx: Transaction,
    spent: Seq<([u8; 33], UtxoEntry)>,
    keys: Seq<LoadedKey>,
    recipient: [u8; 33],
    amount: u64,
    total: nat,
    sign: F,
) -> bool {
    let s = value_sum(spent);
    &&& tx.inputs@.len() == spent.len()
    &&& forall|q: int|
        0 <= q < spent.len() ==> {
            &&& (#[trigger] tx.inputs@[q]).prev_transaction_output_hash == spent[q].1.hash
            &&& call_ensures(
                sign,
                (&spent[q].1.hash, &private_key_of(keys, spent[q].0)),
                tx.inputs@[q].signature,
            )
        }
    &&& tx.outputs@.len() >= 1
    &&& tx.outputs@[0].value == amount
    &&& tx.outputs@[0].pubkey == recipient
    &&& if s > total {
        &&& tx.outputs@.len() == 2
        &&& tx.outputs@[1].value == s - total
        &&& tx.outputs@[1].pubkey == keys[0].public
    } else {
        tx.outputs@.len() == 1
    }
}

/// Each input of a payment names the output it spends by exactly that
/// output's hash, one input per spent output, in the same order.
pub proof fn lemma_payment_inputs_name_spent_outputs<F: Fn(&[u8; 32], &Vec<u8>) -> [u8; 64]>(
    tx: Transaction,
    spent: Seq<([u8; 33], UtxoEntry)>,
    keys: Seq<LoadedKey>,
    recipient: [u8; 33],
    amount: u64,
    total: nat,
    sign: F,
)
    requires
        is_payment(tx, spent, keys, recipient, amount, total, sign),
    ensures
        tx.inputs@.len() == spent.len(),
        forall|q: int|
            0 <= q < spent.len() ==> (#[trigger] tx.inputs@[q]).prev_transaction_output_hash
                == spent[q].1.hash,
        forall|q: int|
            0 <= q < spent.len() ==> call_ensures(
                sign,
                (&spent[q].1.hash, &private_key_of(keys, spent[q].0)),
                (#[trigger] tx.inputs@[q]).signature,
            ),
        tx.outputs@[0].value == amount,
        tx.outputs@[0].pubkey == recipient,
        value_sum(spent) > total ==> tx.outputs@.len() == 2 && tx.outputs@[1].value
            == value_sum(spent) - total && tx.outputs@[1].pubkey == keys[0].public,
        value_sum(spent) <= total ==> tx.outputs@.len() == 1,
{
}

proof fn lemma_flatten_concat(a: Seq<([u8; 33], Vec<UtxoEntry>)>, b: Seq<([u8; 33], Vec<UtxoEntry>)>)
    ensures
        flatten(a + b) == flatten(a) + flatten(b),
    decreases b.len(),
{
    if b.len() == 0 {
        assert(a + b =~= a);
        assert(flatten(a) + flatten(b) =~= flatten(a));
    } else {
        assert((a + b).drop_last() =~= a + b.drop_last());
        lemma_flatten_concat(a, b.drop_last());
        assert(flatten(a) + flatten(b.drop_last()) + group_items(b.last()) =~= flatten(a) + (
        flatten(b.drop_last()) + group_items(b.last())));
    }
}

proof fn lemma_value_sum_concat(a: Seq<([u8; 33], UtxoEntry)>, b: Seq<([u8; 33], UtxoEntry)>)
    ensures
        value_sum(a + b) == value_sum(a) + value_sum(b),
        unmarked_sum(a + b) == unmarked_sum(a) + unmarked_sum(b),
    decreases b.len(),
{
    if b.len() == 0 {
        assert(a + b =~= a);
    } else {
        assert((a + b).drop_last() =~= a + b.drop_last());
        lemma_value_sum_concat(a, b.drop_last());
    }
}

/// The picked outputs are worth at most the unmarked ones, and either they
/// cover `total` or they are all the unmarked ones.
proof fn lemma_picked_sum(items: Seq<([u8; 33], UtxoEntry)>, total: nat)
    ensures
        value_sum(picked(items, total)) <= unmarked_sum(items),
        value_sum(picked(items, total)) >= total || value_sum(picked(items, total))
            == unmarked_sum(items),
    decreases items.len(),
{
    if items.len() > 0 {
        let before = picked(items.drop_last(), total);
        lemma_picked_sum(items.drop_last(), total);
        assert(before.push(items.last()).drop_last() =~= before);
    }
}

/// Walking further outputs never lowers what has been picked.
proof fn lemma_picked_sum_grows(
    a: Seq<([u8; 33], UtxoEntry)>,
    b: Seq<([u8; 33], UtxoEntry)>,
    total: nat,
)
    ensures
        value_sum(picked(a, total)) <= value_sum(picked(a + b, total)),
    decreases b.len(),
{
    if b.len() == 0 {
        assert(a + b =~= a);
    } else {
        assert((a + b).drop_last() =~= a + b.drop_last());
        lemma_picked_sum_grows(a, b.drop_last(), total);
        let p = picked(a + b.drop_last(), total);
        assert(p.push((a + b).last()).drop_last() =~= p);
    }
}

/// Once the picked outputs cover `total`, later outputs are not picked.
proof fn lemma_picked_settled(
    a: Seq<([u8; 33], UtxoEntry)>,
    b: Seq<([u8; 33], UtxoEntry)>,
    total: nat,
)
    requires
        value_sum(picked(a, total)) >= total,
    ensures
        picked(a + b, total) == picked(a, total),
    decreases b.len(),
{
    if b.len() == 0 {
        assert(a + b =~= a);
    } else {
        assert((a + b).drop_last() =~= a + b.drop_last());
        lemma_picked_settled(a, b.drop_last(), total);
    }
}

/// Picking one more output extends the picked outputs by that one exactly
/// when it is not marked and what was picked is still below `total`.
proof fn lemma_picked_step(items: Seq<([u8; 33], UtxoEntry)>, x: ([u8; 33], UtxoEntry), total: nat)
    ensures
        picked(items.push(x), total) == (if !x.1.marked && value_sum(picked(items, total))
            < total {
            picked(items, total).push(x)
        } else {
            picked(items, total)
        }),
{
    assert(items.push(x).drop_last() =~= items);
}

/// A payment never spends an output that is marked.
pub proof fn lemma_spends_only_unmarked(items: Seq<([u8; 33], UtxoEntry)>, total: nat)
    ensures
        forall|q: int|
            0 <= q < picked(items, total).len() ==> !(#[trigger] picked(items, total)[q]).1.marked,
    decreases items.len(),
{
    if items.len() > 0 {
        lemma_spends_only_unmarked(items.drop_last(), total);
        let before = picked(items.drop_last(), total);
        assert forall|q: int| 0 <= q < picked(items, total).len() implies !(#[trigger] picked(
            items,
            total,
        )[q]).1.marked by {
            if q < before.len() {
                assert(picked(items, total)[q] == before[q]);
            }
        }
    }
}

/// The outputs a payment spends are the wallet's outputs, each at most once,
/// in the order in which the wallet walks them.
pub proof fn lemma_spends_in_order(items: Seq<([u8; 33], UtxoEntry)>, total: nat) -> (positions:
    Seq<int>)
    ensures
        positions.len() == picked(items, total).len(),
        forall|q: int|
            0 <= q < positions.len() ==> 0 <= #[trigger] positions[q] < items.len() && items[positions[q]]
                == picked(items, total)[q],
        forall|q: int, r: int| 0 <= q < r < positions.len() ==> positions[q] < positions[r],
    decreases items.len(),
{
    if items.len() == 0 {
        Seq::empty()
    } else {
        let before = lemma_spends_in_order(items.drop_last(), total);
        if picked(items, total).len() == picked(items.drop_last(), total).len() {
            before
        } else {
            before.push(items.len() - 1)
        }
    }
}

/// A payment spends no more outputs than it needs: without the last one it
/// spends, the others do not cover `total`.
pub proof fn lemma_no_needless_input(items: Seq<([u8; 33], UtxoEntry)>, total: nat)
    requires
        picked(items, total).len() > 0,
    ensures
        value_sum(picked(items, total).drop_last()) < total,
    decreases items.len(),
{
    let before = picked(items.drop_last(), total);
    if picked(items, total).len() == before.len() {
        lemma_no_needless_input(items.drop_last(), total);
    } else {
        assert(picked(items, total).drop_last() =~= before);
    }
}

/// `group` is one of `groups`.
pub open spec fn holds_group(
    groups: Seq<([u8; 33], Vec<UtxoEntry>)>,
    group: ([u8; 33], Vec<UtxoEntry>),
) -> bool {
    exists|i: int| 0 <= i < groups.len() && groups[i] == group
}

/// After `insert_utxos` the key holds the new outputs, every group under
/// another key is kept, and no other group appears.
pub proof fn lemma_insertion_holds(
    before: Seq<([u8; 33], Vec<UtxoEntry>)>,
    after: Seq<([u8; 33], Vec<UtxoEntry>)>,
    public: [u8; 33],
    outputs: Vec<UtxoEntry>,
)
    requires
        is_insertion(before, after, public, outputs),
    ensures
        holds_group(after, (public, outputs)),
        forall|i: int|
            0 <= i < before.len() && before[i].0 != public ==> holds_group(after, #[trigger] before[i]),
        forall|i: int|
            0 <= i < after.len() ==> #[trigger] after[i] == (public, outputs) || holds_group(
                before,
                after[i],
            ),
{
    let p = choose|p: int| inserted_at(before, after, public, outputs, p);
    let g = (public, outputs);
    if p < before.len() && before[p].0 == public && after == before.update(p, g) {
        assert(after[p] == g);
        assert forall|i: int|
            0 <= i < before.len() && before[i].0 != public implies holds_group(
            after,
            #[trigger] before[i],
        ) by {
            assert(after[i] == before[i]);
        }
        assert forall|i: int| 0 <= i < after.len() implies #[trigger] after[i] == g || holds_group(
            before,
            after[i],
        ) by {
            if i != p {
                assert(after[i] == before[i]);
            }
        }
    } else {
        assert(after == before.insert(p, g));
        assert(after[p] == g);
        assert forall|i: int|
            0 <= i < before.len() && before[i].0 != public implies holds_group(
            after,
            #[trigger] before[i],
        ) by {
            if i < p {
                assert(after[i] == before[i]);
            } else {
                assert(after[i + 1] == before[i]);
            }
        }
        assert forall|i: int| 0 <= i < after.len() implies #[trigger] after[i] == g || holds_group(
            before,
            after[i],
        ) by {
            if i < p {
                assert(after[i] == before[i]);
            } else if i > p {
                assert(after[i] == before[i - 1]);
            }
        }
    }
}

/// Two places of groups whose keys ascend never hold the same key.
proof fn lemma_ascending_unique(groups: Seq<([u8; 33], Vec<UtxoEntry>)>, i: int, j: int)
    requires
        keys_ascending(groups),
        0 <= i < groups.len(),
        0 <= j < groups.len(),
        groups[i].0 == groups[j].0,
    ensures
        i == j,
{
    lemma_bytes_less_irreflexive(groups[i].0@);
    if i < j {
        assert(key_less(groups[i].0, groups[j].0));
    } else if j < i {
        assert(key_less(groups[j].0, groups[i].0));
    }
}

/// Inserting outputs under a key that already holds exactly them changes
/// nothing.
pub proof fn lemma_insert_present_unchanged(
    before: Seq<([u8; 33], Vec<UtxoEntry>)>,
    after: Seq<([u8; 33], Vec<UtxoEntry>)>,
    public: [u8; 33],
    outputs: Vec<UtxoEntry>,
)
    requires
        keys_ascending(before),
        keys_ascending(after),
        holds_group(before, (public, outputs)),
        is_insertion(before, after, public, outputs),
    ensures
        after == before,
{
    let g = (public, outputs);
    let k = choose|k: int| 0 <= k < before.len() && before[k] == g;
    let p = choose|p: int| inserted_at(before, after, public, outputs, p);
    if p < before.len() && before[p].0 == public && after == before.update(p, g) {
        lemma_ascending_unique(before, p, k);
        assert(after =~= before);
    } else {
        assert(after == before.insert(p, g));
        if k < p {
            assert(after[k] == before[k]);
            lemma_ascending_unique(after, k, p);
        } else {
            assert(after[k + 1] == before[k]);
            lemma_ascending_unique(after, k + 1, p);
        }
    }
}

/// Inserting the same outputs under the same key twice leaves the groups as
/// inserting them once.
pub proof fn lemma_insert_idempotent(
    before: Seq<([u8; 33], Vec<UtxoEntry>)>,
    once: Seq<([u8; 33], Vec<UtxoEntry>)>,
    twice: Seq<([u8; 33], Vec<UtxoEntry>)>,
    public: [u8; 33],
    outputs: Vec<UtxoEntry>,
)
    requires
        is_insertion(before, once, public, outputs),
        is_insertion(once, twice, public, outputs),
        keys_ascending(once),
        keys_ascending(twice),
    ensures
        twice == once,
{
    lemma_insertion_holds(before, once, public, outputs);
    lemma_insert_present_unchanged(once, twice, public, outputs);
}

/// `states` are the groups before and after each `insert_utxos` of a
/// refresh that sets, in turn, the outputs each reply lists under its key.
pub open spec fn is_refresh(
    states: Seq<Seq<([u8; 33], Vec<UtxoEntry>)>>,
    replies: Seq<([u8; 33], Vec<UtxoEntry>)>,
) -> bool {
    &&& states.len() == replies.len() + 1
    &&& forall|i: int|
        0 <= i < replies.len() ==> is_insertion(
            #[trigger] states[i],
            states[i + 1],
            replies[i].0,
            replies[i].1,
        )
    &&& forall|i: int| 0 <= i < states.len() ==> keys_ascending(#[trigger] states[i])
}

/// No two replies are for the same key.
pub open spec fn distinct_keys(replies: Seq<([u8; 33], Vec<UtxoEntry>)>) -> bool {
    forall|i: int, j: int| 0 <= i < j < replies.len() ==> replies[i].0 != replies[j].0
}

/// The total value of the outputs that the replies list.
pub open spec fn replies_value(replies: Seq<([u8; 33], Vec<UtxoEntry>)>) -> nat
    decreases replies.len(),
{
    if replies.len() == 0 {
        0
    } else {
        replies_value(replies.drop_last()) + value_sum(group_items(replies.last()))
    }
}

proof fn lemma_refresh_holds(
    states: Seq<Seq<([u8; 33], Vec<UtxoEntry>)>>,
    replies: Seq<([u8; 33], Vec<UtxoEntry>)>,
    m: int,
)
    requires
        is_refresh(states, replies),
        distinct_keys(replies),
        0 <= m < states.len(),
    ensures
        forall|j: int| 0 <= j < m ==> holds_group(states[m], #[trigger] replies[j]),
    decreases m,
{
    if m > 0 {
        lemma_refresh_holds(states, replies, m - 1);
        assert(is_insertion(states[m - 1], states[m], replies[m - 1].0, replies[m - 1].1));
        lemma_insertion_holds(states[m - 1], states[m], replies[m - 1].0, replies[m - 1].1);
        assert forall|j: int| 0 <= j < m implies holds_group(states[m], #[trigger] replies[j]) by {
            if j < m - 1 {
                assert(holds_group(states[m - 1], replies[j]));
                let prev = states[m - 1];
                let i = choose|i: int| 0 <= i < prev.len() && prev[i] == replies[j];
                assert(prev[i].0 != replies[m - 1].0);
            }
        }
    }
}

proof fn lemma_second_pass(
    first: Seq<Seq<([u8; 33], Vec<UtxoEntry>)>>,
    second: Seq<Seq<([u8; 33], Vec<UtxoEntry>)>>,
    replies: Seq<([u8; 33], Vec<UtxoEntry>)>,
    m: int,
)
    requires
        is_refresh(first, replies),
        is_refresh(second, replies),
        distinct_keys(replies),
        second[0] == first.last(),
        forall|j: int| 0 <= j < replies.len() ==> holds_group(first.last(), #[trigger] replies[j]),
        0 <= m < second.len(),
    ensures
        second[m] == first.last(),
    decreases m,
{
    if m > 0 {
        lemma_second_pass(first, second, replies, m - 1);
        assert(keys_ascending(second[m - 1]));
        assert(keys_ascending(second[m]));
        assert(is_insertion(second[m - 1], second[m], replies[m - 1].0, replies[m - 1].1));
        assert(holds_group(first.last(), replies[m - 1]));
        lemma_insert_present_unchanged(
            second[m - 1],
            second[m],
            replies[m - 1].0,
            replies[m - 1].1,
        );
    }
}

/// Refreshing the outputs twice with the same replies, one per key, leaves
/// the groups as refreshing once.
pub proof fn lemma_refresh_twice(
    first: Seq<Seq<([u8; 33], Vec<UtxoEntry>)>>,
    second: Seq<Seq<([u8; 33], Vec<UtxoEntry>)>>,
    replies: Seq<([u8; 33], Vec<UtxoEntry>)>,
)
    requires
        is_refresh(first, replies),
        is_refresh(second, replies),
        distinct_keys(replies),
        second[0] == first.last(),
    ensures
        second.last() == first.last(),
{
    lemma_refresh_holds(first, replies, replies.len() as int);
    lemma_second_pass(first, second, replies, replies.len() as int);
}

proof fn lemma_flatten_around(
    a: Seq<([u8; 33], Vec<UtxoEntry>)>,
    g: ([u8; 33], Vec<UtxoEntry>),
    c: Seq<([u8; 33], Vec<UtxoEntry>)>,
)
    ensures
        value_sum(flatten(a + seq![g] + c)) == value_sum(flatten(a)) + value_sum(group_items(g))
            + value_sum(flatten(c)),
{
    lemma_flatten_concat(a + seq![g], c);
    lemma_flatten_concat(a, seq![g]);
    assert(seq![g].drop_last() =~= Seq::<([u8; 33], Vec<UtxoEntry>)>::empty());
    assert(flatten(Seq::<([u8; 33], Vec<UtxoEntry>)>::empty()) =~= Seq::<
        ([u8; 33], UtxoEntry),
    >::empty());
    assert(seq![g].last() == g);
    assert(flatten(seq![g]) == flatten(seq![g].drop_last()) + group_items(seq![g].last()));
    assert(flatten(seq![g]) =~= group_items(g));
    lemma_value_sum_concat(flatten(a) + group_items(g), flatten(c));
    lemma_value_sum_concat(flatten(a), group_items(g));
}

/// What `insert_utxos` does to the balance: it adds the value of the new
/// outputs and drops that of the outputs the key held before, if any.
pub proof fn lemma_balance_after_insertion(
    before: Seq<([u8; 33], Vec<UtxoEntry>)>,
    after: Seq<([u8; 33], Vec<UtxoEntry>)>,
    public: [u8; 33],
    outputs: Vec<UtxoEntry>,
)
    requires
        keys_ascending(before),
        keys_ascending(after),
        is_insertion(before, after, public, outputs),
    ensures
        (forall|i: int| 0 <= i < before.len() ==> before[i].0 != public) ==> value_sum(
            flatten(after),
        ) == value_sum(flatten(before)) + value_sum(group_items((public, outputs))),
        forall|i: int|
            0 <= i < before.len() && before[i].0 == public ==> value_sum(flatten(after))
                + value_sum(group_items(#[trigger] before[i])) == value_sum(flatten(before))
                + value_sum(group_items((public, outputs))),
{
    let g = (public, outputs);
    let p = choose|p: int| inserted_at(before, after, public, outputs, p);
    let a = before.take(p);
    if p < before.len() && before[p].0 == public && after == before.update(p, g) {
        let c = before.skip(p + 1);
        assert(before =~= a + seq![before[p]] + c);
        assert(after =~= a + seq![g] + c);
        lemma_flatten_around(a, before[p], c);
        lemma_flatten_around(a, g, c);
        assert forall|i: int|
            0 <= i < before.len() && before[i].0 == public implies value_sum(flatten(after))
            + value_sum(group_items(#[trigger] before[i])) == value_sum(flatten(before))
            + value_sum(group_items(g)) by {
            lemma_ascending_unique(before, i, p);
        }
    } else {
        let c = before.skip(p);
        assert(after == before.insert(p, g));
        assert(before =~= a + c);
        assert(after =~= a + seq![g] + c);
        lemma_flatten_concat(a, c);
        lemma_value_sum_concat(flatten(a), flatten(c));
        lemma_flatten_around(a, g, c);
        assert forall|i: int|
            0 <= i < before.len() && before[i].0 == public implies value_sum(flatten(after))
            + value_sum(group_items(#[trigger] before[i])) == value_sum(flatten(before))
            + value_sum(group_items(g)) by {
            assert(after[p] == g);
            if i < p {
                assert(after[i] == before[i]);
                lemma_ascending_unique(after, i, p);
            } else {
                assert(after[i + 1] == before[i]);
                lemma_ascending_unique(after, i + 1, p);
            }
        }
    }
}

proof fn lemma_refresh_balance_upto(
    states: Seq<Seq<([u8; 33], Vec<UtxoEntry>)>>,
    replies: Seq<([u8; 33], Vec<UtxoEntry>)>,
    m: int,
)
    requires
        is_refresh(states, replies),
        distinct_keys(replies),
        states[0].len() == 0,
        0 <= m < states.len(),
    ensures
        value_sum(flatten(states[m])) == replies_value(replies.take(m)),
        forall|i: int|
            0 <= i < states[m].len() ==> exists|j: int|
                0 <= j < m && (#[trigger] states[m][i]).0 == replies[j].0,
    decreases m,
{
    if m == 0 {
        assert(replies.take(0) =~= Seq::<([u8; 33], Vec<UtxoEntry>)>::empty());
        assert(states[0] =~= Seq::<([u8; 33], Vec<UtxoEntry>)>::empty());
    } else {
        lemma_refresh_balance_upto(states, replies, m - 1);
        let before = states[m - 1];
        let after = states[m];
        let r = replies[m - 1];
        assert(is_insertion(before, after, r.0, r.1));
        assert(keys_ascending(before));
        assert(keys_ascending(after));
        assert forall|i: int| 0 <= i < before.len() implies before[i].0 != r.0 by {
            let j = choose|j: int| 0 <= j < m - 1 && before[i].0 == replies[j].0;
        }
        lemma_balance_after_insertion(before, after, r.0, r.1);
        assert(replies.take(m).drop_last() =~= replies.take(m - 1));
        lemma_insertion_holds(before, after, r.0, r.1);
        assert forall|i: int| 0 <= i < after.len() implies exists|j: int|
            0 <= j < m && (#[trigger] after[i]).0 == replies[j].0 by {
            if after[i] != (r.0, r.1) {
                let k = choose|k: int| 0 <= k < before.len() && before[k] == after[i];
                let j = choose|j: int| 0 <= j < m - 1 && before[k].0 == replies[j].0;
                assert(0 <= j < m && after[i].0 == replies[j].0);
            } else {
                assert(after[i].0 == replies[m - 1].0);
            }
        }
    }
}

/// After refreshing an empty store with one reply per key, the balance is
/// the total value of the outputs the replies list, marked ones included.
pub proof fn lemma_refresh_balance(
    states: Seq<Seq<([u8; 33], Vec<UtxoEntry>)>>,
    replies: Seq<([u8; 33], Vec<UtxoEntry>)>,
)
    requires
        is_refresh(states, replies),
        distinct_keys(replies),
        states[0].len() == 0,
    ensures
        value_sum(flatten(states.last())) == replies_value(replies),
{
    lemma_refresh_balance_upto(states, replies, replies.len() as int);
    assert(replies.take(replies.len() as int) =~= replies);
}

/// The outputs that are not marked, in order.
pub open spec fn unmarked_items(items: Seq<([u8; 33], UtxoEntry)>) -> Seq<([u8; 33], UtxoEntry)>
    decreases items.len(),
{
    if items.len() == 0 {
        Seq::empty()
    } else if items.last().1.marked {
        unmarked_items(items.drop_last())
    } else {
        unmarked_items(items.drop_last()).push(items.last())
    }
}

/// What a payment spends: the shortest run of unmarked outputs, taken from
/// the start in the order the wallet walks them, that covers `total`, or all
/// the unmarked outputs where none does.
pub proof fn lemma_picked_is_shortest_cover(items: Seq<([u8; 33], UtxoEntry)>, total: nat) -> (k:
    nat)
    ensures
        k <= unmarked_items(items).len(),
        picked(items, total) == unmarked_items(items).take(k as int),
        value_sum(unmarked_items(items).take(k as int)) >= total || k
            == unmarked_items(items).len(),
        k > 0 ==> value_sum(unmarked_items(items).take(k - 1)) < total,
    decreases items.len(),
{
    if items.len() == 0 {
        assert(unmarked_items(items).take(0) =~= Seq::<([u8; 33], UtxoEntry)>::empty());
        0
    } else {
        let rest = items.drop_last();
        let k1 = lemma_picked_is_shortest_cover(rest, total);
        let u1 = unmarked_items(rest);
        let x = items.last();
        let p1 = picked(rest, total);
        if x.1.marked {
            k1
        } else {
            let u = u1.push(x);
            assert(u1.take(k1 as int) =~= u.take(k1 as int));
            if k1 > 0 {
                assert(u1.take(k1 - 1) =~= u.take(k1 - 1));
            }
            if value_sum(p1) < total {
                assert(k1 == u1.len());
                assert(u1 =~= u1.take(k1 as int));
                assert(u.take((k1 + 1) as int) =~= u);
                assert(p1.push(x) =~= u.take((k1 + 1) as int));
                assert(u.take(k1 as int) =~= u1);
                (k1 + 1) as nat
            } else {
                k1
            }
        }
    }
}

/// The total value of the outputs that are marked.
pub open spec fn marked_sum(items: Seq<([u8; 33], UtxoEntry)>) -> nat
    decreases items.len(),
{
    if items.len() == 0 {
        0
    } else if items.last().1.marked {
        marked_sum(items.drop_last()) + items.last().1.output.value as nat
    } else {
        marked_sum(items.drop_last())
    }
}

proof fn lemma_marked_and_unmarked(items: Seq<([u8; 33], UtxoEntry)>)
    ensures
        value_sum(items) == unmarked_sum(items) + marked_sum(items),
    decreases items.len(),
{
    if items.len() > 0 {
        lemma_marked_and_unmarked(items.drop_last());
    }
}

/// The balance counts every output the store holds, marked or not: it is
/// the value of all of them, which is that of the unmarked ones plus that of
/// the marked ones.
pub proof fn lemma_balance_counts_every_output(store: UtxoStore)
    ensures
        store.balance() == value_sum(flatten(store.groups())),
        store.balance() == unmarked_sum(flatten(store.groups())) + marked_sum(
            flatten(store.groups()),
        ),
{
    lemma_marked_and_unmarked(flatten(store.groups()));
}

/// For a smaller total the wallet picks a prefix of what it picks for a
/// larger one, and stops short of it only once the smaller total is covered.
proof fn lemma_picked_prefix(items: Seq<([u8; 33], UtxoEntry)>, small: nat, large: nat)
    requires
        small <= large,
    ensures
        picked(items, small).len() <= picked(items, large).len(),
        picked(items, small) == picked(items, large).take(picked(items, small).len() as int),
        picked(items, small) == picked(items, large) || value_sum(picked(items, small)) >= small,
    decreases items.len(),
{
    if items.len() > 0 {
        let rest = items.drop_last();
        lemma_picked_prefix(rest, small, large);
        let p2 = picked(rest, small);
        let p1 = picked(rest, large);
        let x = items.last();
        assert(p1.push(x).take(p2.len() as int) =~= p1.take(p2.len() as int));
        assert(p2.push(x).drop_last() =~= p2);
        assert(p1.push(x).drop_last() =~= p1);
        if p2 == p1 {
            assert(p1.take(p1.len() as int) =~= p1);
            assert(p1.push(x).take(p1.push(x).len() as int) =~= p1.push(x));
        }
    }
}

/// Paying a smaller total never turns a payment the wallet can make into one
/// it cannot: where the unmarked outputs cover `large` and what is spent for
/// it fits in 64 bits, they cover `small` and what is spent for it fits too.
pub proof fn lemma_smaller_total_still_pays(store: UtxoStore, small: nat, large: nat)
    requires
        small <= large,
        unmarked_sum(flatten(store.groups())) >= large,
        value_sum(picked(flatten(store.groups()), large)) <= u64::MAX,
    ensures
        unmarked_sum(flatten(store.groups())) >= small,
        value_sum(picked(flatten(store.groups()), small)) <= u64::MAX,
{
    let items = flatten(store.groups());
    lemma_picked_prefix(items, small, large);
    let p1 = picked(items, large);
    let k = picked(items, small).len() as int;
    assert(p1 =~= p1.take(k) + p1.skip(k));
    lemma_value_sum_concat(p1.take(k), p1.skip(k));
}

/// The outputs that are not marked are worth at most all of them, which is
/// what the balance counts.
pub proof fn lemma_unmarked_within_balance(items: Seq<([u8; 33], UtxoEntry)>)
    ensures
        unmarked_sum(items) <= value_sum(items),
    decreases items.len(),
{
    if items.len() > 0 {
        lemma_unmarked_within_balance(items.drop_last());
    }
}

proof fn lemma_first_key_unique(keys: Seq<LoadedKey>, public: [u8; 33], j: int)
    requires
        is_first_key(keys, public, j),
    ensures
        private_key_of(keys, public) == keys[j].private,
{
    let c = choose|c: int| is_first_key(keys, public, c);
    assert(is_first_key(keys, public, c));
    if c < j {
        assert(keys[c].public != public);
    } else if c > j {
        assert(keys[j].public != public);
    }
}

fn bytes_equal(a: &[u8; 33], b: &[u8; 33]) -> (eq: bool)
    ensures
        eq == (*a == *b),
{
    let mut i: usize = 0;
    while i < 33
        invariant
            i <= 33,
            forall|k: int| 0 <= k < i ==> a@[k] == b@[k],
        decreases 33 - i,
    {
        if a[i] != b[i] {
            return false;
        }
        i = i + 1;
    }
    assert(a@ =~= b@);
    assert(*a =~= *b);
    true
}

/// The position of the first of `keys` whose public key is `public`.
fn find_key(keys: &Vec<LoadedKey>, public: &[u8; 33]) -> (j: usize)
    requires
        exists|j: int| 0 <= j < keys@.len() && keys@[j].public == *public,
    ensures
        is_first_key(keys@, *public, j as int),
{
    let mut j: usize = 0;
    while j < keys.len()
        invariant
            j <= keys@.len(),
            forall|k: int| 0 <= k < j ==> keys@[k].public != *public,
            exists|j: int| 0 <= j < keys@.len() && keys@[j].public == *public,
        decreases keys@.len() - j,
    {
        if bytes_equal(&keys[j].public, public) {
            return j;
        }
        j = j + 1;
    }
    proof {
        let w = choose|w: int| 0 <= w < keys@.len() && keys@[w].public == *public;
        assert(keys@[w].public != *public);
    }
    0
}

/// Calls `uuid::Uuid::new_v4`, which draws a random version-4 UUID from the
/// operating system; nothing is promised of which.
#[verifier::external_body]
fn new_unique_id() -> (id: Uuid) {
    Uuid::new_v4()
}

impl UtxoStore {
    /// The outputs are held under the wallet's own keys only, each key once,
    /// in ascending order.
    #[verifier::type_invariant]
    spec fn well_formed(self) -> bool {
        &&& keys_ascending(self.utxos@)
        &&& forall|i: int|
            0 <= i < self.utxos@.len() ==> is_key_of(self.my_keys@, #[trigger] self.utxos@[i].0)
    }

    /// The wallet's key pairs, in the order they were added.
    pub closed spec fn keys(&self) -> Seq<LoadedKey> {
        self.my_keys@
    }

    /// Each public key with its outputs, keys ascending.
    pub closed spec fn groups(&self) -> Seq<([u8; 33], Vec<UtxoEntry>)> {
        self.utxos@
    }

    /// A store with no keys and no outputs.
    pub fn new() -> (store: UtxoStore)
        ensures
            store.keys().len() == 0,
            store.groups().len() == 0,
    {
        UtxoStore { my_keys: Vec::new(), utxos: Vec::new() }
    }

    /// The wallet's key pairs.
    pub fn my_keys(&self) -> (keys: &Vec<LoadedKey>)
        ensures
            keys@ == self.keys(),
    {
        &self.my_keys
    }

    /// Each public key with its outputs, keys ascending.
    pub fn utxos(&self) -> (groups: &Vec<([u8; 33], Vec<UtxoEntry>)>)
        ensures
            groups@ == self.groups(),
            keys_ascending(groups@),
            forall|i: int| 0 <= i < groups@.len() ==> is_key_of(self.keys(), #[trigger] groups@[i].0),
    {
        proof {
            use_type_invariant(self);
        }
        &self.utxos
    }

    /// Adds a key pair after the others.
    pub fn add_key(&mut self, key: LoadedKey)
        ensures
            final(self).keys() == old(self).keys().push(key),
            final(self).groups() == old(self).groups(),
    {
        proof {
            use_type_invariant(&*self);
        }
        let mut groups: Vec<([u8; 33], Vec<UtxoEntry>)> = Vec::new();
        std::mem::swap(&mut groups, &mut self.utxos);
        let mut keys: Vec<LoadedKey> = Vec::new();
        std::mem::swap(&mut keys, &mut self.my_keys);
        let ghost old_keys = keys@;
        keys.push(key);
        proof {
            assert forall|i: int| 0 <= i < groups@.len() implies is_key_of(
                keys@,
                #[trigger] groups@[i].0,
            ) by {
                let w = choose|w: int| 0 <= w < old_keys.len() && old_keys[w].public == groups@[i].0;
                assert(keys@[w] == old_keys[w]);
            }
        }
        self.my_keys = keys;
        self.utxos = groups;
    }

    /// Whether `public` is the public key of one of the wallet's key pairs.
    pub fn has_key(&self, public: &[u8; 33]) -> (r: bool)
        ensures
            r == is_key_of(self.keys(), *public),
    {
        let mut j: usize = 0;
        while j < self.my_keys.len()
            invariant
                j <= self.my_keys@.len(),
                forall|k: int| 0 <= k < j ==> self.my_keys@[k].public != *public,
            decreases self.my_keys@.len() - j,
        {
            if bytes_equal(&self.my_keys[j].public, public) {
                return true;
            }
            j = j + 1;
        }
        false
    }

    /// Sets the outputs held under `public`, one of the wallet's keys,
    /// replacing any held before; the other keys keep theirs, and the keys
    /// stay in ascending order.
    pub fn insert_utxos(&mut self, public: [u8; 33], outputs: Vec<UtxoEntry>)
        requires
            is_key_of(old(self).keys(), public),
        ensures
            final(self).keys() == old(self).keys(),
            keys_ascending(final(self).groups()),
            is_insertion(old(self).groups(), final(self).groups(), public, outputs),
    {
        proof {
            use_type_invariant(&*self);
        }
        let mut groups: Vec<([u8; 33], Vec<UtxoEntry>)> = Vec::new();
        std::mem::swap(&mut groups, &mut self.utxos);
        let ghost old_groups = groups@;
        assert(keys_ascending(old_groups));
        let n = groups.len();
        let mut p: usize = 0;
        while p < n && key_before(&groups[p].0, &public)
            invariant
                n == groups@.len(),
                groups@ == old_groups,
                p <= n,
                forall|q: int| 0 <= q < p ==> key_less(#[trigger] groups@[q].0, public),
            decreases n - p,
        {
            p = p + 1;
        }
        let new_group = (public, outputs);
        if p < n && bytes_equal(&groups[p].0, &public) {
            groups[p] = new_group;
            proof {
                assert(groups@ == old_groups.update(p as int, new_group));
                assert(p < old_groups.len() && old_groups[p as int].0 == public && groups@
                    == old_groups.update(p as int, (public, outputs)));
            }
        } else {
            proof {
                if p < n {
                    assert(!key_less(old_groups[p as int].0, public));
                    if old_groups[p as int].0@ == public@ {
                        assert(old_groups[p as int].0 =~= public);
                    }
                    lemma_bytes_less_total(old_groups[p as int].0@, public@);
                    assert forall|q: int| p < q < n implies key_less(
                        public,
                        #[trigger] old_groups[q].0,
                    ) by {
                        assert(key_less(old_groups[p as int].0, old_groups[q].0));
                        lemma_bytes_less_transitive(
                            public@,
                            old_groups[p as int].0@,
                            old_groups[q].0@,
                        );
                    }
                }
            }
            groups.insert(p, new_group);
            proof {
                let g = groups@;
                assert(g == old_groups.insert(p as int, new_group));
                assert((p == old_groups.len() || old_groups[p as int].0 != public) && g
                    == old_groups.insert(p as int, (public, outputs)));
                assert forall|i: int, j: int| 0 <= i < j < g.len() implies key_less(
                    g[i].0,
                    g[j].0,
                ) by {
                    if i < p && j == p {
                    } else if i == p && j > p {
                        assert(g[j] == old_groups[j - 1]);
                    } else if i < p && j > p {
                        assert(g[j] == old_groups[j - 1]);
                        assert(key_less(old_groups[i].0, old_groups[j - 1].0));
                    } else if j < p {
                    } else {
                        assert(g[i] == old_groups[i - 1]);
                        assert(g[j] == old_groups[j - 1]);
                    }
                }
            }
        }
        proof {
            assert forall|i: int| 0 <= i < groups@.len() implies is_key_of(
                self.my_keys@,
                #[trigger] groups@[i].0,
            ) by {
                if groups@[i].0 != public {
                    if groups@.len() == old_groups.len() {
                        assert(groups@[i] == old_groups[i]);
                    } else if i < p {
                        assert(groups@[i] == old_groups[i]);
                    } else {
                        assert(groups@[i] == old_groups[i - 1]);
                    }
                }
            }
        }
        self.utxos = groups;
        proof {
            let q = p as int;
            assert(old(self).groups() == old_groups);
            assert(0 <= q <= old(self).groups().len() && {
                ||| (q < old(self).groups().len() && old(self).groups()[q].0 == public
                    && self.groups() == old(self).groups().update(q, (public, outputs)))
                ||| ((q == old(self).groups().len() || old(self).groups()[q].0 != public)
                    && self.groups() == old(self).groups().insert(q, (public, outputs)))
            });
            assert(inserted_at(old(self).groups(), self.groups(), public, outputs, q));
        }
    }

    /// The total value of all outputs, marked or not.
    pub open spec fn balance(&self) -> nat {
        value_sum(flatten(self.groups()))
    }

    /// The total value of all outputs, marked or not, or `None` where it does
    /// not fit in 64 bits.
    pub fn checked_balance(&self) -> (r: Option<u64>)
        ensures
            r is Some <==> self.balance() <= u64::MAX,
            r matches Some(b) ==> b == self.balance(),
            r is Some <==> value_sum(flatten(self.groups())) <= u64::MAX,
            r matches Some(b) ==> b == value_sum(flatten(self.groups())),
    {
        let mut sum: u64 = 0;
        let n = self.utxos.len();
        let mut i: usize = 0;
        while i < n
            invariant
                n == self.utxos@.len(),
                i <= n,
                sum == value_sum(flatten(self.utxos@.take(i as int))),
            decreases n - i,
        {
            let group = &self.utxos[i];
            let m = group.1.len();
            let mut j: usize = 0;
            let ghost before = flatten(self.utxos@.take(i as int));
            while j < m
                invariant
                    n == self.utxos@.len(),
                    i < n,
                    *group == self.utxos@[i as int],
                    m == group.1@.len(),
                    j <= m,
                    before == flatten(self.utxos@.take(i as int)),
                    sum == value_sum(before + group_items(*group).take(j as int)),
                decreases m - j,
            {
                let v = group.1[j].output.value;
                proof {
                    let prefix = before + group_items(*group).take(j as int);
                    assert(before + group_items(*group).take(j + 1) =~= prefix.push(
                        group_items(*group)[j as int],
                    ));
                    assert(prefix.push(group_items(*group)[j as int]).drop_last() =~= prefix);
                }
                match sum.checked_add(v) {
                    Some(s) => {
                        sum = s;
                    },
                    None => {
                        proof {
                            let prefix = before + group_items(*group).take(j + 1);
                            let rest_items = group_items(*group).skip(j + 1);
                            assert(group_items(*group) =~= group_items(*group).take(j + 1)
                                + rest_items);
                            assert(self.utxos@.take(i + 1) =~= self.utxos@.take(i as int).push(
                                *group,
                            ));
                            assert(self.utxos@.take(i + 1).drop_last() =~= self.utxos@.take(
                                i as int,
                            ));
                            assert(flatten(self.utxos@.take(i + 1)) =~= prefix + rest_items);
                            lemma_value_sum_concat(prefix, rest_items);
                            assert(self.utxos@ =~= self.utxos@.take(i + 1) + self.utxos@.skip(
                                i + 1,
                            ));
                            lemma_flatten_concat(
                                self.utxos@.take(i + 1),
                                self.utxos@.skip(i + 1),
                            );
                            lemma_value_sum_concat(
                                flatten(self.utxos@.take(i + 1)),
                                flatten(self.utxos@.skip(i + 1)),
                            );
                        }
                        return None;
                    },
                }
                j = j + 1;
            }
            proof {
                assert(group_items(*group).take(m as int) =~= group_items(*group));
                assert(self.utxos@.take(i + 1).drop_last() =~= self.utxos@.take(i as int));
            }
            i = i + 1;
        }
        assert(self.utxos@.take(n as int) =~= self.utxos@);
        Some(sum)
    }

    /// The value of the outputs that a payment of `total` spends, or `None`
    /// where it does not fit in 64 bits.
    pub fn spent_value(&self, total: u64) -> (r: Option<u64>)
        ensures
            r is Some <==> value_sum(picked(flatten(self.groups()), total as nat)) <= u64::MAX,
            r matches Some(v) ==> v == value_sum(picked(flatten(self.groups()), total as nat)),
    {
        let ghost items = flatten(self.utxos@);
        let mut sum: u64 = 0;
        let ghost mut chosen: Seq<([u8; 33], UtxoEntry)> = Seq::empty();
        let n = self.utxos.len();
        let mut i: usize = 0;
        proof {
            assert(self.utxos@.take(0) =~= Seq::<([u8; 33], Vec<UtxoEntry>)>::empty());
        }
        while i < n && sum < total
            invariant
                n == self.utxos@.len(),
                i <= n,
                items == flatten(self.utxos@),
                chosen == picked(flatten(self.utxos@.take(i as int)), total as nat),
                sum == value_sum(chosen),
            decreases n - i,
        {
            let group = &self.utxos[i];
            let m = group.1.len();
            let mut j: usize = 0;
            let ghost before = flatten(self.utxos@.take(i as int));
            proof {
                assert(self.utxos@.take(i + 1).drop_last() =~= self.utxos@.take(i as int));
                assert(flatten(self.utxos@.take(i + 1)) == before + group_items(*group));
                assert(self.utxos@ =~= self.utxos@.take(i + 1) + self.utxos@.skip(i + 1));
                lemma_flatten_concat(self.utxos@.take(i + 1), self.utxos@.skip(i + 1));
                assert(before + group_items(*group).take(0) =~= before);
            }
            while j < m && sum < total
                invariant
                    n == self.utxos@.len(),
                    i < n,
                    *group == self.utxos@[i as int],
                    m == group.1@.len(),
                    j <= m,
                    before == flatten(self.utxos@.take(i as int)),
                    items == flatten(self.utxos@),
                    items == before + group_items(*group) + flatten(self.utxos@.skip(i + 1)),
                    chosen == picked(before + group_items(*group).take(j as int), total as nat),
                    sum == value_sum(chosen),
                decreases m - j,
            {
                let entry = &group.1[j];
                let ghost prefix = before + group_items(*group).take(j as int);
                let ghost x = group_items(*group)[j as int];
                proof {
                    assert(before + group_items(*group).take(j + 1) =~= prefix.push(x));
                    lemma_picked_step(prefix, x, total as nat);
                }
                if !entry.marked {
                    proof {
                        assert(chosen.push(x).drop_last() =~= chosen);
                    }
                    match sum.checked_add(entry.output.value) {
                        Some(s) => {
                            sum = s;
                            proof {
                                chosen = chosen.push(x);
                            }
                        },
                        None => {
                            proof {
                                assert(x.1 == *entry);
                                assert(picked(prefix.push(x), total as nat) == chosen.push(x));
                                assert(value_sum(chosen.push(x)) > u64::MAX);
                                let rest = group_items(*group).skip(j + 1) + flatten(
                                    self.utxos@.skip(i + 1),
                                );
                                assert(items =~= prefix.push(x) + rest);
                                lemma_picked_sum_grows(prefix.push(x), rest, total as nat);
                            }
                            return None;
                        },
                    }
                }
                j = j + 1;
            }
            proof {
                let prefix = before + group_items(*group).take(j as int);
                if j == m {
                    assert(group_items(*group).take(j as int) =~= group_items(*group));
                } else {
                    let rest = group_items(*group).skip(j as int);
                    assert(before + group_items(*group) =~= prefix + rest);
                    lemma_picked_settled(prefix, rest, total as nat);
                }
            }
            i = i + 1;
        }
        proof {
            if i == n {
                assert(self.utxos@.take(n as int) =~= self.utxos@);
            } else {
                assert(self.utxos@ =~= self.utxos@.take(i as int) + self.utxos@.skip(i as int));
                lemma_flatten_concat(self.utxos@.take(i as int), self.utxos@.skip(i as int));
                lemma_picked_settled(
                    flatten(self.utxos@.take(i as int)),
                    flatten(self.utxos@.skip(i as int)),
                    total as nat,
                );
            }
        }
        Some(sum)
    }

    /// Builds a transaction that pays `amount` to `recipient` with `fee` left
    /// to the miner. It spends the outputs that `picked` selects for
    /// `amount + fee`, signs each input with `sign` over the spent output's
    /// hash and its owner's private key, and sends any excess back to the
    /// wallet's first key. It fails when the outputs that are not marked do
    /// not cover `amount + fee`.
    pub fn create_transaction<F: Fn(&[u8; 32], &Vec<u8>) -> [u8; 64]>(
        &self,
        recipient: [u8; 33],
        amount: u64,
        fee: u64,
        sign: F,
    ) -> (r: Result<Transaction, WalletError>)
        requires
            amount + fee <= u64::MAX,
            value_sum(picked(flatten(self.groups()), (amount + fee) as nat)) <= u64::MAX,
            forall|h: &[u8; 32], k: &Vec<u8>| call_requires(sign, (h, k)),
        ensures
            r is Err <==> unmarked_sum(flatten(self.groups())) < amount + fee,
            r is Ok ==> amount + fee <= self.balance(),
            r matches Err(e) ==> e == WalletError::InsufficientFunds,
            r matches Ok(tx) ==> is_payment(
                tx,
                picked(flatten(self.groups()), (amount + fee) as nat),
                self.keys(),
                recipient,
                amount,
                (amount + fee) as nat,
                sign,
            ),
            r matches Ok(tx) ==> outputs_sum(tx.outputs@) + fee == value_sum(
                picked(flatten(self.groups()), (amount + fee) as nat),
            ),
            r matches Ok(tx) ==> tx.inputs@.len() == picked(
                flatten(self.groups()),
                (amount + fee) as nat,
            ).len(),
            r matches Ok(tx) ==> forall|q: int|
                0 <= q < tx.inputs@.len() ==> (#[trigger] tx.inputs@[q]).prev_transaction_output_hash
                    == picked(flatten(self.groups()), (amount + fee) as nat)[q].1.hash,
            r matches Ok(tx) ==> forall|q: int|
                0 <= q < tx.inputs@.len() ==> call_ensures(
                    sign,
                    (
                        &picked(flatten(self.groups()), (amount + fee) as nat)[q].1.hash,
                        &private_key_of(
                            self.keys(),
                            picked(flatten(self.groups()), (amount + fee) as nat)[q].0,
                        ),
                    ),
                    (#[trigger] tx.inputs@[q]).signature,
                ),
            r matches Ok(tx) ==> tx.outputs@[0].value == amount && tx.outputs@[0].pubkey
                == recipient,
            r matches Ok(tx) ==> (tx.outputs@.len() == 2 <==> value_sum(
                picked(flatten(self.groups()), (amount + fee) as nat),
            ) > amount + fee) && (tx.outputs@.len() == 1 || tx.outputs@.len() == 2),
            r matches Ok(tx) ==> (tx.outputs@.len() == 2 ==> tx.outputs@[1].pubkey
                == self.keys()[0].public),
    {
        proof {
            use_type_invariant(self);
            lemma_unmarked_within_balance(flatten(self.utxos@));
        }
        let total = amount + fee;
        let ghost items = flatten(self.utxos@);
        let mut inputs: Vec<TransactionInput> = Vec::new();
        let mut input_sum: u64 = 0;
        let ghost mut chosen: Seq<([u8; 33], UtxoEntry)> = Seq::empty();
        let n = self.utxos.len();
        let mut i: usize = 0;
        proof {
            assert(self.utxos@.take(0) =~= Seq::<([u8; 33], Vec<UtxoEntry>)>::empty());
        }
        while i < n && input_sum < total
            invariant
                n == self.utxos@.len(),
                i <= n,
                total == amount + fee,
                items == flatten(self.utxos@),
                forall|q: int|
                    0 <= q < self.utxos@.len() ==> is_key_of(self.my_keys@, #[trigger] self.utxos@[q].0),
                value_sum(picked(items, total as nat)) <= u64::MAX,
                forall|h: &[u8; 32], k: &Vec<u8>| call_requires(sign, (h, k)),
                chosen == picked(flatten(self.utxos@.take(i as int)), total as nat),
                input_sum == value_sum(chosen),
                input_sum > 0 ==> self.my_keys@.len() > 0,
                inputs@.len() == chosen.len(),
                forall|q: int|
                    0 <= q < chosen.len() ==> {
                        &&& (#[trigger] inputs@[q]).prev_transaction_output_hash
                            == chosen[q].1.hash
                        &&& call_ensures(
                            sign,
                            (&chosen[q].1.hash, &private_key_of(self.my_keys@, chosen[q].0)),
                            inputs@[q].signature,
                        )
                    },
            decreases n - i,
        {
            let group = &self.utxos[i];
            let m = group.1.len();
            let mut j: usize = 0;
            let ghost before = flatten(self.utxos@.take(i as int));
            proof {
                assert(self.utxos@.take(i + 1).drop_last() =~= self.utxos@.take(i as int));
                assert(flatten(self.utxos@.take(i + 1)) == before + group_items(*group));
                assert(self.utxos@ =~= self.utxos@.take(i + 1) + self.utxos@.skip(i + 1));
                lemma_flatten_concat(self.utxos@.take(i + 1), self.utxos@.skip(i + 1));
                assert(before + group_items(*group) =~= before + group_items(*group).take(0)
                    + group_items(*group).skip(0));
                assert(before + group_items(*group).take(0) =~= before);
            }
            while j < m && input_sum < total
                invariant
                    n == self.utxos@.len(),
                    i < n,
                    *group == self.utxos@[i as int],
                    m == group.1@.len(),
                    j <= m,
                    total == amount + fee,
                    before == flatten(self.utxos@.take(i as int)),
                    items == before + group_items(*group) + flatten(self.utxos@.skip(i + 1)),
                    value_sum(picked(items, total as nat)) <= u64::MAX,
                    forall|q: int|
                    0 <= q < self.utxos@.len() ==> is_key_of(self.my_keys@, #[trigger] self.utxos@[q].0),
                    forall|h: &[u8; 32], k: &Vec<u8>| call_requires(sign, (h, k)),
                    chosen == picked(before + group_items(*group).take(j as int), total as nat),
                    input_sum == value_sum(chosen),
                    input_sum > 0 ==> self.my_keys@.len() > 0,
                    inputs@.len() == chosen.len(),
                    forall|q: int|
                        0 <= q < chosen.len() ==> {
                            &&& (#[trigger] inputs@[q]).prev_transaction_output_hash
                                == chosen[q].1.hash
                            &&& call_ensures(
                                sign,
                                (&chosen[q].1.hash, &private_key_of(self.my_keys@, chosen[q].0)),
                                inputs@[q].signature,
                            )
                        },
                decreases m - j,
            {
                let entry = &group.1[j];
                let ghost prefix = before + group_items(*group).take(j as int);
                let ghost x = group_items(*group)[j as int];
                proof {
                    assert(before + group_items(*group).take(j + 1) =~= prefix.push(x));
                    lemma_picked_step(prefix, x, total as nat);
                }
                if !entry.marked {
                    proof {
                        let rest = group_items(*group).skip(j + 1) + flatten(
                            self.utxos@.skip(i + 1),
                        );
                        assert(items =~= prefix.push(x) + rest);
                        lemma_picked_sum_grows(prefix.push(x), rest, total as nat);
                        assert(picked(prefix, total as nat).push(x).drop_last() =~= picked(
                            prefix,
                            total as nat,
                        ));
                        assert(is_key_of(self.my_keys@, self.utxos@[i as int].0));
                    }
                    let k = find_key(&self.my_keys, &group.0);
                    let signature = sign(&entry.hash, &self.my_keys[k].private);
                    proof {
                        lemma_first_key_unique(self.my_keys@, group.0, k as int);
                    }
                    inputs.push(
                        TransactionInput { prev_transaction_output_hash: entry.hash, signature },
                    );
                    input_sum = input_sum + entry.output.value;
                    proof {
                        chosen = chosen.push(x);
                        assert(chosen.drop_last() =~= picked(prefix, total as nat));
                    }
                }
                j = j + 1;
            }
            proof {
                let prefix = before + group_items(*group).take(j as int);
                if j == m {
                    assert(group_items(*group).take(j as int) =~= group_items(*group));
                } else {
                    let rest = group_items(*group).skip(j as int);
                    assert(before + group_items(*group) =~= prefix + rest);
                    lemma_picked_settled(prefix, rest, total as nat);
                }
            }
            i = i + 1;
        }
        proof {
            if i == n {
                assert(self.utxos@.take(n as int) =~= self.utxos@);
            } else {
                assert(self.utxos@ =~= self.utxos@.take(i as int) + self.utxos@.skip(i as int));
                lemma_flatten_concat(self.utxos@.take(i as int), self.utxos@.skip(i as int));
                lemma_picked_settled(
                    flatten(self.utxos@.take(i as int)),
                    flatten(self.utxos@.skip(i as int)),
                    total as nat,
                );
            }
            lemma_picked_sum(items, total as nat);
        }
        if input_sum < total {
            return Err(WalletError::InsufficientFunds);
        }
        let mut outputs: Vec<TransactionOutput> = Vec::new();
        outputs.push(TransactionOutput { value: amount, unique_id: new_unique_id(), pubkey: recipient });
        if input_sum > total {
            outputs.push(
                TransactionOutput {
                    value: input_sum - total,
                    unique_id: new_unique_id(),
                    pubkey: self.my_keys[0].public,
                },
            );
        }
        proof {
            reveal_with_fuel(outputs_sum, 3);
            if outputs@.len() == 2 {
                assert(outputs@.drop_last().drop_last() =~= Seq::<TransactionOutput>::empty());
            } else {
                assert(outputs@.drop_last() =~= Seq::<TransactionOutput>::empty());
            }
        }
        Ok(Transaction::new(inputs, outputs))
    }

    /// The total value of all outputs, marked or not.
    pub fn get_balance(&self) -> (b: u64)
        requires
            self.balance() <= u64::MAX,
        ensures
            b == self.balance(),
            b == value_sum(flatten(self.groups())),
    {
        match self.checked_balance() {
            Some(b) => b,
            None => 0,
        }
    }
}

/// Whether two strings hold the same characters.
fn same_text(a: &str, b: &str) -> (eq: bool)
    ensures
        eq == (a@ == b@),
{
    let n = a.unicode_len();
    if n != b.unicode_len() {
        return false;
    }
    let mut i: usize = 0;
    while i < n
        invariant
            n == a@.len(),
            n == b@.len(),
            i <= n,
            forall|k: int| 0 <= k < i ==> a@[k] == b@[k],
        decreases n - i,
    {
        if a.get_char(i) != b.get_char(i) {
            return false;
        }
        i = i + 1;
    }
    assert(a@ =~= b@);
    true
}

/// The position of the first contact named `name`; an error where no
/// contact has that name.
pub fn find_recipient(contacts: &Vec<Recipient>, name: &str) -> (r: Result<usize, WalletError>)
    ensures
        r matches Ok(i) ==> i < contacts@.len() && contacts@[i as int].name@ == name@ && forall|
            k: int,
        | 0 <= k < i ==> contacts@[k].name@ != name@,
        r is Err <==> forall|k: int| 0 <= k < contacts@.len() ==> contacts@[k].name@ != name@,
        r matches Err(e) ==> e == WalletError::RecipientNotFound,
{
    let mut i: usize = 0;
    while i < contacts.len()
        invariant
            i <= contacts@.len(),
            forall|k: int| 0 <= k < i ==> contacts@[k].name@ != name@,
        decreases contacts@.len() - i,
    {
        if same_text(contacts[i].name.as_str(), name) {
            return Ok(i);
        }
        i = i + 1;
    }
    Err(WalletError::RecipientNotFound)
}

/// The outputs that a node's reply lists, each with whether it is marked; an
/// error where the reply is not a list of outputs.
pub fn fetched_utxos(reply: Message) -> (r: Result<Vec<(bool, TransactionOutput)>, WalletError>)
    ensures
        match reply {
            Message::UTXOs(listed) => r matches Ok(v) && v@ == listed@.map_values(
                |p: (TransactionOutput, bool)| (p.1, p.0),
            ),
            _ => r == Err::<Vec<(bool, TransactionOutput)>, WalletError>(
                WalletError::UnexpectedResponse,
            ),
        },
{
    match reply {
        Message::UTXOs(listed) => {
            let mut out: Vec<(bool, TransactionOutput)> = Vec::new();
            let n = listed.len();
            let mut i: usize = 0;
            while i < n
                invariant
                    n == listed@.len(),
                    i <= n,
                    out@ == listed@.take(i as int).map_values(
                        |p: (TransactionOutput, bool)| (p.1, p.0),
                    ),
                decreases n - i,
            {
                let (output, marked) = listed[i];
                out.push((marked, output));
                proof {
                    assert(listed@.take(i + 1) =~= listed@.take(i as int).push(listed@[i as int]));
                    assert(out@ =~= listed@.take(i + 1).map_values(
                        |p: (TransactionOutput, bool)| (p.1, p.0),
                    ));
                }
                i = i + 1;
            }
            assert(listed@.take(n as int) =~= listed@);
            Ok(out)
        },
        _ => Err(WalletError::UnexpectedResponse),
    }
}

} // verus!
