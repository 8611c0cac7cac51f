use crate::primitives::{H256, U256};
use crate::order::{
    ascending_entries, ascending_slots, lemma_ascending_slots, lemma_ascending_unique,
    lemma_distinct_numbers,
};
use crate::text::{format_full_hex, format_lower_hex, full_hex, lower_hex};
use crate::vec_map::{
    distinct_keys, entries_map, entry_views, lemma_position, position, VecMap, ViewEq,
};
use vstd::prelude::*;
use vstd::std_specs::cmp::{PartialEqSpec, PartialEqSpecImpl};

verus! {

/// What was observed of one address: each field is absent where it was not observed.
///
/// Two accounts are equal when they hold the same numbers and the same slots with
/// the same values; the order in which the slots were put in does not count, for
/// `==` or for the text.
#[derive(Clone, Debug)]
pub struct Account {
    pub balance: Option<U256>,
    pub code: Option<U256>,
    pub nonce: Option<U256>,
    pub storage: Option<VecMap<H256, H256>>,
}

/// An account as plain values: the three numbers, and the storage slots as they
/// are held, each with its value.
pub struct AccountView {
    pub balance: Option<nat>,
    pub code: Option<nat>,
    pub nonce: Option<nat>,
    pub storage: Option<Seq<(Seq<u8>, Seq<u8>)>>,
}

/// The value of a number that may be absent.
pub open spec fn number_view(number: Option<U256>) -> Option<nat> {
    match number {
        Some(n) => Some(n@),
        None => None,
    }
}

impl View for Account {
    type V = AccountView;

    open spec fn view(&self) -> AccountView {
        AccountView {
            balance: number_view(self.balance),
            code: number_view(self.code),
            nonce: number_view(self.nonce),
            storage: match self.storage {
                Some(slots) => Some(slots.entries_view()),
                None => None,
            },
        }
    }
}

/// The line of the balance, where it was observed.
pub open spec fn balance_line(balance: Option<nat>) -> Seq<char> {
    match balance {
        Some(n) => "  balance: \"0x"@ + lower_hex(n) + "\",\n"@,
        None => Seq::empty(),
    }
}

/// The line of the code, where it was observed.
pub open spec fn code_line(code: Option<nat>) -> Seq<char> {
    match code {
        Some(n) => "  code: \"0x"@ + lower_hex(n) + "\",\n"@,
        None => Seq::empty(),
    }
}

/// The line of the nonce, where it was observed.
pub open spec fn nonce_line(nonce: Option<nat>) -> Seq<char> {
    match nonce {
        Some(n) => "  nonce: 0x"@ + lower_hex(n) + ",\n"@,
        None => Seq::empty(),
    }
}

/// The line of one storage slot.
pub open spec fn slot_line(slot: Seq<u8>, value: Seq<u8>) -> Seq<char> {
    "    "@ + full_hex(slot) + ": \""@ + full_hex(value) + "\",\n"@
}

/// The lines of a list of storage slots, one after the other.
pub open spec fn slot_lines(slots: Seq<(Seq<u8>, Seq<u8>)>) -> Seq<char>
    decreases slots.len(),
{
    if slots.len() == 0 {
        Seq::empty()
    } else {
        slot_lines(slots.drop_last()) + slot_line(slots.last().0, slots.last().1)
    }
}

/// The block of the storage, where slots were observed: one line for each slot,
/// in ascending order of the slots.
pub open spec fn storage_block(storage: Option<Seq<(Seq<u8>, Seq<u8>)>>) -> Seq<char> {
    match storage {
        Some(slots) => "  storage: {\n"@ + slot_lines(ascending_slots(slots)) + "  }\n"@,
        None => Seq::empty(),
    }
}

/// The text of an account: a record in braces that lists the observed fields in
/// the order balance, code, nonce, storage, and leaves out the others. Every
/// number is written in hexadecimal behind `0x`.
pub open spec fn account_text(account: AccountView) -> Seq<char> {
    "{\n"@ + balance_line(account.balance) + code_line(account.code) + nonce_line(account.nonce)
        + storage_block(account.storage) + "}\n"@
}

/// The slots of an account as a map, where slots were observed.
pub open spec fn slots_map(storage: Option<Seq<(Seq<u8>, Seq<u8>)>>) -> Option<
    Map<Seq<u8>, Seq<u8>>,
> {
    match storage {
        Some(slots) => Some(entries_map(slots)),
        None => None,
    }
}

fn same_number(left: &Option<U256>, right: &Option<U256>) -> (same: bool)
    ensures
        same == (number_view(*left) == number_view(*right)),
{
    match (left, right) {
        (Some(l), Some(r)) => l.same(r),
        (None, None) => true,
        _ => false,
    }
}

fn same_slots(left: &Option<VecMap<H256, H256>>, right: &Option<VecMap<H256, H256>>) -> (same:
    bool)
    ensures
        same == (match (*left, *right) {
            (Some(l), Some(r)) => l@ == r@,
            (None, None) => true,
            _ => false,
        }),
{
    match (left, right) {
        (Some(l), Some(r)) => l.same(r),
        (None, None) => true,
        _ => false,
    }
}

impl PartialEq for Account {
    fn eq(&self, other: &Account) -> (equal: bool) {
        same_number(&self.balance, &other.balance) && same_number(&self.code, &other.code)
            && same_number(&self.nonce, &other.nonce) && same_slots(&self.storage, &other.storage)
    }
}

impl PartialEqSpecImpl for Account {
    open spec fn obeys_eq_spec() -> bool {
        true
    }

    open spec fn eq_spec(&self, other: &Account) -> bool {
        &&& self@.balance == other@.balance
        &&& self@.code == other@.code
        &&& self@.nonce == other@.nonce
        &&& slots_map(self@.storage) == slots_map(other@.storage)
    }
}

impl Eq for Account {

}

/// Whether the slots of an account, where it has any, hold each key once.
pub open spec fn storage_well_formed(account: Account) -> bool {
    match account.storage {
        Some(slots) => slots.well_formed(),
        None => true,
    }
}

/// Lists of slots that stand for the same map come in the same ascending order.
proof fn lemma_same_map_same_order(first: Seq<(Seq<u8>, Seq<u8>)>, second: Seq<(Seq<u8>, Seq<u8>)>)
    requires
        distinct_keys(first),
        distinct_keys(second),
        entries_map(first) == entries_map(second),
        forall|i: int| 0 <= i < first.len() ==> (#[trigger] first[i]).0.len() == 32,
        forall|i: int| 0 <= i < second.len() ==> (#[trigger] second[i]).0.len() == 32,
    ensures
        ascending_slots(first) == ascending_slots(second),
{
    lemma_distinct_numbers(first);
    lemma_distinct_numbers(second);
    lemma_ascending_slots(first);
    lemma_ascending_slots(second);
    assert forall|slot: (Seq<u8>, Seq<u8>)| first.contains(slot) <==> second.contains(slot) by {
        if first.contains(slot) {
            let i = choose|i: int| 0 <= i < first.len() && first[i] == slot;
            lemma_position(first, i);
            assert(entries_map(second).contains_key(slot.0));
            let j = position(second, slot.0);
            lemma_position(second, j);
            assert(second[j] == slot);
        }
        if second.contains(slot) {
            let i = choose|i: int| 0 <= i < second.len() && second[i] == slot;
            lemma_position(second, i);
            assert(entries_map(first).contains_key(slot.0));
            let j = position(first, slot.0);
            lemma_position(first, j);
            assert(first[j] == slot);
        }
    }
    let ours = ascending_slots(first);
    let theirs = ascending_slots(second);
    assert forall|slot: (Seq<u8>, Seq<u8>)| ours.contains(slot) <==> theirs.contains(slot) by {
        assert(ours.contains(slot) <==> first.contains(slot));
        assert(theirs.contains(slot) <==> second.contains(slot));
    }
    lemma_ascending_unique(ours, theirs);
}

/// Equal accounts render to the same text: the text depends on the numbers and
/// on which slots hold which values, not on the order in which the slots were
/// put in.
pub proof fn lemma_render_repeatable(first: Account, second: Account)
    requires
        PartialEqSpec::eq_spec(&first, &second),
        storage_well_formed(first),
        storage_well_formed(second),
    ensures
        account_text(first@) == account_text(second@),
{
    match (first.storage, second.storage) {
        (Some(ours), Some(theirs)) => {
            lemma_same_map_same_order(ours.entries_view(), theirs.entries_view());
        },
        _ => {},
    }
}

impl Default for Account {
    /// The account of which nothing was observed.
    fn default() -> (account: Account)
        ensures
            account@ == (AccountView { balance: None, code: None, nonce: None, storage: None }),
    {
        Account { balance: None, code: None, nonce: None, storage: None }
    }
}

fn append_balance(text: &mut String, balance: &Option<U256>)
    ensures
        final(text)@ == old(text)@ + balance_line(number_view(*balance)),
{
    if let Some(number) = balance {
        let digits = format_lower_hex(&number.to_big_endian());
        text.append("  balance: \"0x");
        text.append(digits.as_str());
        text.append("\",\n");
    }
    assert(text@ =~= old(text)@ + balance_line(number_view(*balance)));
}

fn append_code(text: &mut String, code: &Option<U256>)
    ensures
        final(text)@ == old(text)@ + code_line(number_view(*code)),
{
    if let Some(number) = code {
        let digits = format_lower_hex(&number.to_big_endian());
        text.append("  code: \"0x");
        text.append(digits.as_str());
        text.append("\",\n");
    }
    assert(text@ =~= old(text)@ + code_line(number_view(*code)));
}

fn append_nonce(text: &mut String, nonce: &Option<U256>)
    ensures
        final(text)@ == old(text)@ + nonce_line(number_view(*nonce)),
{
    if let Some(number) = nonce {
        let digits = format_lower_hex(&number.to_big_endian());
        text.append("  nonce: 0x");
        text.append(digits.as_str());
        text.append(",\n");
    }
    assert(text@ =~= old(text)@ + nonce_line(number_view(*nonce)));
}

fn append_slot(text: &mut String, slot: &H256, value: &H256)
    ensures
        final(text)@ == old(text)@ + slot_line(slot@, value@),
{
    let slot_text = format_full_hex(&slot.0);
    let value_text = format_full_hex(&value.0);
    text.append("    ");
    text.append(slot_text.as_str());
    text.append(": \"");
    text.append(value_text.as_str());
    text.append("\",\n");
    assert(text@ =~= old(text)@ + slot_line(slot@, value@));
}

fn append_slots(text: &mut String, slots: &VecMap<H256, H256>)
    ensures
        final(text)@ == old(text)@ + slot_lines(ascending_slots(slots.entries_view())),
{
    let sorted = ascending_entries(slots);
    let ghost all = entry_views(sorted@);
    let mut i: usize = 0;
    assert(text@ =~= old(text)@ + slot_lines(all.take(0)));
    while i < sorted.len()
        invariant
            all == entry_views(sorted@),
            i <= all.len(),
            text@ == old(text)@ + slot_lines(all.take(i as int)),
        decreases all.len() - i,
    {
        append_slot(text, &sorted[i].0, &sorted[i].1);
        proof {
            assert(all.take(i + 1).drop_last() =~= all.take(i as int));
            assert(text@ =~= old(text)@ + slot_lines(all.take(i + 1)));
        }
        i = i + 1;
    }
    assert(all.take(i as int) =~= all);
}

fn append_storage(text: &mut String, storage: &Option<VecMap<H256, H256>>)
    ensures
        final(text)@ == old(text)@ + storage_block(
            match *storage {
                Some(slots) => Some(slots.entries_view()),
                None => None,
            },
        ),
{
    if let Some(slots) = storage {
        text.append("  storage: {\n");
        append_slots(text, slots);
        text.append("  }\n");
        assert(text@ =~= old(text)@ + ("  storage: {\n"@ + slot_lines(
            ascending_slots(slots.entries_view()),
        ) + "  }\n"@));
    } else {
        assert(text@ =~= old(text)@ + Seq::<char>::empty());
    }
}

impl Account {
    /// Renders the account as text.
    pub fn render(&self) -> (text: String)
        ensures
            text@ == account_text(self@),
    {
        let mut text = String::from_str("{\n");
        append_balance(&mut text, &self.balance);
        append_code(&mut text, &self.code);
        append_nonce(&mut text, &self.nonce);
        append_storage(&mut text, &self.storage);
        text.append("}\n");
        text
    }
}

} // verus!
