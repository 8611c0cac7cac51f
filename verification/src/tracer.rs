use crate::account::{Account, AccountView};
use crate::keys::{
    balance_key, code_key, get_balance_key, get_code_key, get_nonce_key, nonce_key, StorageKey,
    StorageKeyView,
};
use crate::primitives::{be_value, h256_to_u256, Address, H256};
use crate::storage::StorageSnapshot;
use crate::vec_map::{distinct_keys, has_key, lemma_push, ViewEq, VecMap};
use once_cell::sync::OnceCell;
use std::sync::Arc;
use vstd::prelude::*;

verus! {

/// The accounts by address.
pub type State = VecMap<Address, Account>;

/// `once_cell::sync::OnceCell`, a cell that can be written once. Verus sees nothing
/// inside it: the tracer only carries the cell.
#[verifier::external_type_specification]
#[verifier::external_body]
#[verifier::reject_recursive_types(T)]
pub struct ExOnceCell<T>(OnceCell<T>);

/// How the tracer reports: all touched accounts, or only what changed.
#[derive(Debug, Clone)]
pub struct PrestateTracerConfig {
    diff_mode: bool,
}

impl PrestateTracerConfig {
    /// Whether the tracer was made in diff mode.
    pub closed spec fn in_diff_mode(&self) -> bool {
        self.diff_mode
    }

    /// Whether the tracer was made in diff mode.
    pub fn diff_mode(&self) -> (on: bool)
        ensures
            on == self.in_diff_mode(),
    {
        self.diff_mode
    }
}

/// The tracer of one execution: the accounts before and after it, the mode, and
/// the shared cell that takes the final pair of states once.
#[derive(Debug, Clone)]
pub struct PrestateTracer {
    pub pre: State,
    pub post: State,
    pub config: PrestateTracerConfig,
    pub result: Arc<OnceCell<(State, State)>>,
}

impl PrestateTracer {
    /// A tracer with no accounts yet, in the given mode, that holds the given cell.
    pub fn new(diff_mode: bool, result: Arc<OnceCell<(State, State)>>) -> (tracer: Self)
        ensures
            tracer.pre@ == Map::<Seq<u8>, AccountView>::empty(),
            tracer.post@ == Map::<Seq<u8>, AccountView>::empty(),
            tracer.config.in_diff_mode() == diff_mode,
            tracer.result == result,
    {
        Self {
            pre: VecMap::new(),
            post: VecMap::new(),
            config: PrestateTracerConfig { diff_mode },
            result,
        }
    }
}

/// Whether the address owns one of the written keys.
pub open spec fn owns_modified_key(
    modified: Seq<(StorageKeyView, Seq<u8>)>,
    address: Seq<u8>,
) -> bool {
    exists|i: int| 0 <= i < modified.len() && (#[trigger] modified[i]).0.account == address
}

/// Whether the address was first touched by the execution: it owns a written key
/// and the state before the execution does not know it.
pub open spec fn is_new_account(
    prestate: Map<Seq<u8>, AccountView>,
    modified: Seq<(StorageKeyView, Seq<u8>)>,
    address: Seq<u8>,
) -> bool {
    owns_modified_key(modified, address) && !prestate.contains_key(address)
}

/// The slot and value of a written key where the address owns it.
pub open spec fn slot_of(entry: (StorageKeyView, Seq<u8>), address: Seq<u8>) -> Option<
    (Seq<u8>, Seq<u8>),
> {
    if entry.0.account == address {
        Some((entry.0.key, entry.1))
    } else {
        None
    }
}

/// The slots that the execution wrote in the storage of the address, in the order
/// of the written keys, each with its final value.
pub open spec fn slots_of(modified: Seq<(StorageKeyView, Seq<u8>)>, address: Seq<u8>) -> Seq<
    (Seq<u8>, Seq<u8>),
> {
    modified.filter_map(|entry: (StorageKeyView, Seq<u8>)| slot_of(entry, address))
}

/// The account that the store shows for an address after the execution: balance,
/// code and nonce as read at the three keys derived from the address, and the
/// slots that the execution wrote in its storage.
pub open spec fn observed_account(storage: StorageSnapshot, address: Seq<u8>) -> AccountView {
    AccountView {
        balance: Some(be_value(storage.value_at(balance_key(address)))),
        code: Some(be_value(storage.value_at(code_key(address)))),
        nonce: Some(be_value(storage.value_at(nonce_key(address)))),
        storage: Some(slots_of(storage.modified_entries(), address)),
    }
}

/// The accounts that the execution touched first: one for each address that owns
/// a written key and is absent from the state before.
pub open spec fn new_accounts(
    prestate: Map<Seq<u8>, AccountView>,
    storage: StorageSnapshot,
) -> Map<Seq<u8>, AccountView> {
    Map::new(
        |address: Seq<u8>| is_new_account(prestate, storage.modified_entries(), address),
        |address: Seq<u8>| observed_account(storage, address),
    )
}

/// A slot among the slots of an address comes from a written key of that address.
proof fn lemma_slot_has_source(
    modified: Seq<(StorageKeyView, Seq<u8>)>,
    address: Seq<u8>,
    slot: Seq<u8>,
)
    requires
        has_key(slots_of(modified, address), slot),
    ensures
        has_key(modified, StorageKeyView { account: address, key: slot }),
{
    let slots = slots_of(modified, address);
    let i = choose|i: int| 0 <= i < slots.len() && (#[trigger] slots[i]).0 == slot;
    assert(slots.contains(slots[i]));
    modified.lemma_filter_map_contains(
        |entry: (StorageKeyView, Seq<u8>)| slot_of(entry, address),
        slots[i],
    );
    let entry = choose|entry: (StorageKeyView, Seq<u8>)| #[trigger]
        modified.contains(entry) && slot_of(entry, address) == Some(slots[i]);
    let j = choose|j: int| 0 <= j < modified.len() && modified[j] == entry;
    assert(modified[j].0 == StorageKeyView { account: address, key: slot });
}

/// A written key of the address puts its slot and value among the slots of the
/// address.
proof fn lemma_source_has_slot(
    modified: Seq<(StorageKeyView, Seq<u8>)>,
    address: Seq<u8>,
    j: int,
)
    requires
        0 <= j < modified.len(),
        modified[j].0.account == address,
    ensures
        slots_of(modified, address).contains((modified[j].0.key, modified[j].1)),
    decreases modified.len(),
{
    let pick = |entry: (StorageKeyView, Seq<u8>)| slot_of(entry, address);
    let earlier = modified.drop_last();
    if j == modified.len() - 1 {
        let slots = earlier.filter_map(pick) + seq![(modified[j].0.key, modified[j].1)];
        assert(slots_of(modified, address) == slots);
        assert(slots[slots.len() - 1] == (modified[j].0.key, modified[j].1));
    } else {
        lemma_source_has_slot(earlier, address, j);
        let found = (modified[j].0.key, modified[j].1);
        let before = earlier.filter_map(pick);
        let i = choose|i: int| 0 <= i < before.len() && before[i] == found;
        match pick(modified.last()) {
            Some(slot) => {
                assert((before + seq![slot])[i] == found);
            },
            None => {},
        }
    }
}

/// The slots that the execution wrote in the storage of one account, each with its
/// final value.
pub fn get_storage_if_present(
    account: &Address,
    modified_storage_keys: &VecMap<StorageKey, H256>,
) -> (slots: VecMap<H256, H256>)
    ensures
        slots.entries_view() == slots_of(modified_storage_keys.entries_view(), account@),
{
    let ghost modified = modified_storage_keys.entries_view();
    let ghost pick = |entry: (StorageKeyView, Seq<u8>)| slot_of(entry, account@);
    proof {
        use_type_invariant(modified_storage_keys);
    }
    let mut slots: VecMap<H256, H256> = VecMap::new();
    let mut i: usize = 0;
    assert(modified.take(0) =~= Seq::empty());
    while i < modified_storage_keys.len()
        invariant
            modified == modified_storage_keys.entries_view(),
            distinct_keys(modified),
            i <= modified.len(),
            slots.entries_view() == slots_of(modified.take(i as int), account@),
        decreases modified.len() - i,
    {
        let key = modified_storage_keys.key_at(i);
        proof {
            modified.lemma_filter_map_take_succ(
                |entry: (StorageKeyView, Seq<u8>)| slot_of(entry, account@),
                i as int,
            );
        }
        if key.account().same(account) {
            let slot = key.key();
            let value = modified_storage_keys.value_at(i);
            proof {
                let before = slots.entries_view();
                if has_key(before, slot@) {
                    lemma_slot_has_source(modified.take(i as int), account@, slot@);
                    let earlier = modified.take(i as int);
                    let j = choose|j: int|
                        0 <= j < earlier.len() && (#[trigger] earlier[j]).0 == (StorageKeyView {
                            account: account@,
                            key: slot@,
                        });
                    assert(modified[j].0 == modified[i as int].0);
                }
                use_type_invariant(&slots);
                lemma_push(before, slot@, value@);
            }
            slots.insert(*slot, *value);
            assert(slots.entries_view() =~= slots_of(modified.take(i + 1), account@));
        }
        i = i + 1;
    }
    assert(modified.take(i as int) =~= modified);
    slots
}

/// The views of a list of addresses.
pub open spec fn address_views(addresses: Seq<Address>) -> Seq<Seq<u8>> {
    addresses.map_values(|address: Address| address@)
}

/// The owners of the written keys that the state before does not know, each once,
/// in the order in which the written keys first name them.
pub open spec fn new_owners(
    modified: Seq<(StorageKeyView, Seq<u8>)>,
    known: Set<Seq<u8>>,
) -> Seq<Seq<u8>>
    decreases modified.len(),
{
    if modified.len() == 0 {
        Seq::empty()
    } else {
        let earlier = new_owners(modified.drop_last(), known);
        let owner = modified.last().0.account;
        if known.contains(owner) || earlier.contains(owner) {
            earlier
        } else {
            earlier.push(owner)
        }
    }
}

/// An address is in the list of new owners exactly when it owns a written key
/// and the state before does not know it.
proof fn lemma_new_owner(
    prestate: Map<Seq<u8>, AccountView>,
    modified: Seq<(StorageKeyView, Seq<u8>)>,
    address: Seq<u8>,
)
    ensures
        new_owners(modified, prestate.dom()).contains(address) <==> is_new_account(
            prestate,
            modified,
            address,
        ),
    decreases modified.len(),
{
    let owners = new_owners(modified, prestate.dom());
    if modified.len() > 0 {
        let rest = modified.drop_last();
        let earlier = new_owners(rest, prestate.dom());
        let owner = modified.last().0.account;
        lemma_new_owner(prestate, rest, address);
        if owners.contains(address) {
            let i = choose|i: int| 0 <= i < owners.len() && owners[i] == address;
            if i < earlier.len() {
                assert(earlier[i] == address);
                assert(earlier.contains(address));
                assert(owns_modified_key(rest, address));
                let j = choose|j: int|
                    0 <= j < rest.len() && (#[trigger] rest[j]).0.account == address;
                assert(modified[j] == rest[j]);
                assert(owns_modified_key(modified, address));
            } else {
                assert(address == owner);
                assert(modified[modified.len() - 1].0.account == address);
                assert(owns_modified_key(modified, address));
            }
        }
        if is_new_account(prestate, modified, address) {
            let j = choose|j: int|
                0 <= j < modified.len() && (#[trigger] modified[j]).0.account == address;
            if j < rest.len() {
                assert(rest[j] == modified[j]);
                assert(owns_modified_key(rest, address));
                assert(earlier.contains(address));
                let i = choose|i: int| 0 <= i < earlier.len() && earlier[i] == address;
                assert(owners[i] == address);
            } else {
                assert(address == owner);
                if earlier.contains(owner) {
                    let i = choose|i: int| 0 <= i < earlier.len() && earlier[i] == owner;
                    assert(owners[i] == owner);
                } else {
                    assert(owners[owners.len() - 1] == owner);
                }
            }
        }
    }
}

/// The list of new owners names each new account once, and nothing else.
pub proof fn lemma_new_owners(prestate: Map<Seq<u8>, AccountView>, modified: Seq<
    (StorageKeyView, Seq<u8>),
>)
    ensures
        new_owners(modified, prestate.dom()).no_duplicates(),
        forall|address: Seq<u8>|
            #[trigger] new_owners(modified, prestate.dom()).contains(address) <==> is_new_account(
                prestate,
                modified,
                address,
            ),
    decreases modified.len(),
{
    let owners = new_owners(modified, prestate.dom());
    assert forall|address: Seq<u8>| #[trigger]
        owners.contains(address) <==> is_new_account(prestate, modified, address) by {
        lemma_new_owner(prestate, modified, address);
    }
    if modified.len() > 0 {
        let earlier = new_owners(modified.drop_last(), prestate.dom());
        lemma_new_owners(prestate, modified.drop_last());
        assert forall|i: int, j: int|
            0 <= i < owners.len() && 0 <= j < owners.len() && i != j implies owners[i]
            != owners[j] by {
            if i < earlier.len() {
                assert(earlier[i] == owners[i]);
                assert(earlier.contains(owners[i]));
            }
            if j < earlier.len() {
                assert(earlier[j] == owners[j]);
                assert(earlier.contains(owners[j]));
            }
        }
    }
}

fn holds_address(addresses: &Vec<Address>, address: &Address) -> (found: bool)
    ensures
        found == address_views(addresses@).contains(address@),
{
    let mut i: usize = 0;
    while i < addresses.len()
        invariant
            i <= addresses.len(),
            forall|j: int| 0 <= j < i ==> address_views(addresses@)[j] != address@,
        decreases addresses.len() - i,
    {
        if addresses[i].same(address) {
            assert(address_views(addresses@)[i as int] == address@);
            return true;
        }
        i = i + 1;
    }
    false
}

/// The addresses that the execution touched first: the owners of the written keys
/// that are absent from the state before, each once, in the order in which the
/// written keys first name them.
pub fn new_addresses(prestate: &State, modified_storage_keys: &VecMap<StorageKey, H256>) -> (addresses:
    Vec<Address>)
    ensures
        address_views(addresses@) == new_owners(
            modified_storage_keys.entries_view(),
            prestate@.dom(),
        ),
        address_views(addresses@).no_duplicates(),
        forall|address: Seq<u8>|
            #[trigger] address_views(addresses@).contains(address) <==> is_new_account(
                prestate@,
                modified_storage_keys.entries_view(),
                address,
            ),
{
    let ghost modified = modified_storage_keys.entries_view();
    let mut addresses: Vec<Address> = Vec::new();
    let mut i: usize = 0;
    assert(modified.take(0) =~= Seq::empty());
    assert(address_views(addresses@) =~= Seq::empty());
    while i < modified_storage_keys.len()
        invariant
            modified == modified_storage_keys.entries_view(),
            i <= modified.len(),
            address_views(addresses@) == new_owners(modified.take(i as int), prestate@.dom()),
        decreases modified.len() - i,
    {
        let owner = modified_storage_keys.key_at(i).account();
        proof {
            assert(modified.take(i + 1).drop_last() =~= modified.take(i as int));
            assert(modified.take(i + 1).last() == modified[i as int]);
        }
        if !prestate.contains_key(owner) && !holds_address(&addresses, owner) {
            let ghost before = address_views(addresses@);
            addresses.push(*owner);
            assert(address_views(addresses@) =~= before.push(owner@));
        }
        i = i + 1;
    }
    proof {
        assert(modified.take(i as int) =~= modified);
        lemma_new_owners(prestate@, modified);
    }
    addresses
}

/// The views of a list of storage keys.
pub open spec fn key_views(keys: Seq<StorageKey>) -> Seq<StorageKeyView> {
    keys.map_values(|key: StorageKey| key@)
}

/// The keys derived from each address of a list, address by address: the balance
/// key, the code key, the nonce key.
pub open spec fn derived_keys(addresses: Seq<Seq<u8>>) -> Seq<StorageKeyView>
    decreases addresses.len(),
{
    if addresses.len() == 0 {
        Seq::empty()
    } else {
        derived_keys(addresses.drop_last()) + seq![
            balance_key(addresses.last()),
            code_key(addresses.last()),
            nonce_key(addresses.last()),
        ]
    }
}

/// The derived keys of a list of addresses hold the three keys of each of them.
pub proof fn lemma_derived_keys(addresses: Seq<Seq<u8>>, i: int)
    requires
        0 <= i < addresses.len(),
    ensures
        derived_keys(addresses).contains(balance_key(addresses[i])),
        derived_keys(addresses).contains(code_key(addresses[i])),
        derived_keys(addresses).contains(nonce_key(addresses[i])),
    decreases addresses.len(),
{
    let earlier = derived_keys(addresses.drop_last());
    let keys = derived_keys(addresses);
    if i == addresses.len() - 1 {
        let first = earlier.len() as int;
        assert(keys[first] == balance_key(addresses[i]));
        assert(keys[first + 1] == code_key(addresses[i]));
        assert(keys[first + 2] == nonce_key(addresses[i]));
    } else {
        lemma_derived_keys(addresses.drop_last(), i);
        let b = choose|b: int| 0 <= b < earlier.len() && earlier[b] == balance_key(addresses[i]);
        assert(keys[b] == balance_key(addresses[i]));
        let c = choose|c: int| 0 <= c < earlier.len() && earlier[c] == code_key(addresses[i]);
        assert(keys[c] == code_key(addresses[i]));
        let n = choose|n: int| 0 <= n < earlier.len() && earlier[n] == nonce_key(addresses[i]);
        assert(keys[n] == nonce_key(addresses[i]));
    }
}

/// The keys whose values the description of the new accounts reads: for each
/// address that the execution touched first, in order, its balance key, its code
/// key and its nonce key. A store that holds the written keys and the values at
/// these keys holds all that [`process_modified_storage_keys`] reads.
pub fn keys_to_read(prestate: &State, modified_storage_keys: &VecMap<StorageKey, H256>) -> (keys:
    Vec<StorageKey>)
    ensures
        key_views(keys@) == derived_keys(
            new_owners(modified_storage_keys.entries_view(), prestate@.dom()),
        ),
        forall|address: Seq<u8>| #[trigger]
            is_new_account(prestate@, modified_storage_keys.entries_view(), address) ==> {
                &&& key_views(keys@).contains(balance_key(address))
                &&& key_views(keys@).contains(code_key(address))
                &&& key_views(keys@).contains(nonce_key(address))
            },
{
    let addresses = new_addresses(prestate, modified_storage_keys);
    let ghost names = address_views(addresses@);
    let mut keys: Vec<StorageKey> = Vec::new();
    let mut i: usize = 0;
    assert(names.take(0) =~= Seq::empty());
    assert(key_views(keys@) =~= Seq::empty());
    while i < addresses.len()
        invariant
            names == address_views(addresses@),
            i <= addresses.len(),
            key_views(keys@) == derived_keys(names.take(i as int)),
        decreases addresses.len() - i,
    {
        let ghost before = key_views(keys@);
        let address = &addresses[i];
        keys.push(get_balance_key(address));
        keys.push(get_code_key(address));
        keys.push(get_nonce_key(address));
        proof {
            assert(names.take(i + 1).drop_last() =~= names.take(i as int));
            assert(names.take(i + 1).last() == address@);
            assert(key_views(keys@) =~= before + seq![
                balance_key(address@),
                code_key(address@),
                nonce_key(address@),
            ]);
        }
        i = i + 1;
    }
    proof {
        assert(names.take(i as int) =~= names);
        assert forall|address: Seq<u8>| #[trigger]
            is_new_account(
                prestate@,
                modified_storage_keys.entries_view(),
                address,
            ) implies key_views(keys@).contains(balance_key(address)) && key_views(
            keys@,
        ).contains(code_key(address)) && key_views(keys@).contains(nonce_key(address)) by {
            assert(names.contains(address));
            let k = choose|k: int| 0 <= k < names.len() && names[k] == address;
            lemma_derived_keys(names, k);
        }
    }
    keys
}

fn observe_account(address: &Address, storage: &StorageSnapshot) -> (account: Account)
    ensures
        account@ == observed_account(*storage, address@),
{
    let balance = h256_to_u256(storage.read_value(&get_balance_key(address)));
    let code = h256_to_u256(storage.read_value(&get_code_key(address)));
    let nonce = h256_to_u256(storage.read_value(&get_nonce_key(address)));
    let slots = get_storage_if_present(address, storage.modified_storage_keys());
    Account { balance: Some(balance), code: Some(code), nonce: Some(nonce), storage: Some(slots) }
}

/// Describes the accounts that the execution touched first. For each address
/// that owns a written key and is absent from `prestate`, the result holds one
/// account: balance, code and nonce as the store reads at the three keys derived
/// from the address, and the slots that the execution wrote in its storage.
pub fn process_modified_storage_keys(prestate: State, storage: &StorageSnapshot) -> (post: State)
    ensures
        post@ == new_accounts(prestate@, *storage),
        post.well_formed(),
{
    let addresses = new_addresses(&prestate, storage.modified_storage_keys());
    let ghost names = address_views(addresses@);
    let mut post: State = VecMap::new();
    let mut i: usize = 0;
    while i < addresses.len()
        invariant
            names == address_views(addresses@),
            i <= addresses.len(),
            post@.dom() =~= names.take(i as int).to_set(),
            forall|address: Seq<u8>|
                post@.contains_key(address) ==> #[trigger] post@[address] == observed_account(
                    *storage,
                    address,
                ),
        decreases addresses.len() - i,
    {
        let address = addresses[i];
        let account = observe_account(&address, storage);
        let ghost before = post@;
        post.insert(address, account);
        proof {
            let sofar = names.take(i as int);
            let upto = names.take(i + 1);
            assert(names[i as int] == address@);
            assert(upto =~= sofar.push(address@));
            assert(upto.to_set() =~= sofar.to_set().insert(address@)) by {
                assert forall|a: Seq<u8>| upto.contains(a) <==> (sofar.contains(a) || a
                    == address@) by {
                    if upto.contains(a) {
                        let j = choose|j: int| 0 <= j < upto.len() && #[trigger] upto[j] == a;
                        if j < i {
                            assert(sofar[j] == a);
                        }
                    }
                    if sofar.contains(a) {
                        let j = choose|j: int| 0 <= j < sofar.len() && #[trigger] sofar[j] == a;
                        assert(upto[j] == a);
                    }
                    if a == address@ {
                        assert(upto[i as int] == a);
                    }
                }
            }
        }
        i = i + 1;
    }
    proof {
        assert(names.take(i as int) =~= names);
        assert(post@ =~= new_accounts(prestate@, *storage));
        use_type_invariant(&post);
    }
    post
}

/// An execution that wrote no key yields no account, whatever the state before.
pub proof fn lemma_no_writes_no_accounts(
    prestate: Map<Seq<u8>, AccountView>,
    storage: StorageSnapshot,
)
    requires
        storage.modified_entries().len() == 0,
    ensures
        new_accounts(prestate, storage) == Map::<Seq<u8>, AccountView>::empty(),
{
    assert(new_accounts(prestate, storage) =~= Map::<Seq<u8>, AccountView>::empty());
}

/// Every address that owns a written key and is absent from the state before has
/// an account in the result, whose balance, code and nonce are what the store
/// reads at the three keys derived from the address.
pub proof fn lemma_new_address_included(
    prestate: Map<Seq<u8>, AccountView>,
    storage: StorageSnapshot,
    address: Seq<u8>,
)
    requires
        owns_modified_key(storage.modified_entries(), address),
        !prestate.contains_key(address),
    ensures
        new_accounts(prestate, storage).contains_key(address),
        new_accounts(prestate, storage)[address].balance == Some(
            be_value(storage.value_at(balance_key(address))),
        ),
        new_accounts(prestate, storage)[address].code == Some(
            be_value(storage.value_at(code_key(address))),
        ),
        new_accounts(prestate, storage)[address].nonce == Some(
            be_value(storage.value_at(nonce_key(address))),
        ),
{
}

/// The storage of a new account holds a slot with a value exactly when the
/// execution wrote that value to that slot of the account.
pub proof fn lemma_storage_grouping(
    prestate: Map<Seq<u8>, AccountView>,
    storage: StorageSnapshot,
    address: Seq<u8>,
    slot: Seq<u8>,
    value: Seq<u8>,
)
    requires
        new_accounts(prestate, storage).contains_key(address),
    ensures
        new_accounts(prestate, storage)[address].storage is Some,
        new_accounts(prestate, storage)[address].storage->0.contains((slot, value))
            <==> storage.modified_entries().contains(
            (StorageKeyView { account: address, key: slot }, value),
        ),
{
    let modified = storage.modified_entries();
    let slots = slots_of(modified, address);
    let written = (StorageKeyView { account: address, key: slot }, value);
    if slots.contains((slot, value)) {
        modified.lemma_filter_map_contains(
            |entry: (StorageKeyView, Seq<u8>)| slot_of(entry, address),
            (slot, value),
        );
        let entry = choose|entry: (StorageKeyView, Seq<u8>)| #[trigger]
            modified.contains(entry) && slot_of(entry, address) == Some((slot, value));
        assert(entry == written);
    }
    if modified.contains(written) {
        let j = choose|j: int| 0 <= j < modified.len() && modified[j] == written;
        lemma_source_has_slot(modified, address, j);
    }
}

/// An address that the state before knows never appears in the result, even
/// where the execution wrote to its keys.
pub proof fn lemma_known_address_excluded(
    prestate: Map<Seq<u8>, AccountView>,
    storage: StorageSnapshot,
    address: Seq<u8>,
)
    requires
        prestate.contains_key(address),
    ensures
        !new_accounts(prestate, storage).contains_key(address),
{
}

} // verus!
