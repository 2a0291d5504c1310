use crate::grammar::{digit_at, digits, is_digit, is_number, MAX_DEPTH};
use crate::text::push_char;
use vstd::prelude::*;

verus! {

/// A JSON document as a mathematical value.
pub enum Json {
    Null,
    Bool(bool),
    /// A number, as the decimal text that spells it.
    Number(Seq<char>),
    /// A string, with its escapes already decoded.
    Text(Seq<char>),
    /// The elements in their order.
    Array(Seq<Json>),
    /// The members by key; the order of members is not part of the value.
    Object(Map<Seq<char>, Json>),
}

/// The members of a JSON object: a map from keys to values in which a key
/// occurs once. Inserting under a key that is present replaces its value.
#[derive(Debug)]
pub struct JsonObject {
    entries: Vec<(String, JsonValue)>,
}

/// A JSON document in memory.
#[derive(Debug)]
pub enum JsonValue {
    Null,
    Bool(bool),
    /// A number, kept as the decimal text that spelled it.
    Number(String),
    /// A string, with its escapes already decoded.
    JsonString(String),
    /// The elements in their order.
    Array(Vec<JsonValue>),
    Object(JsonObject),
}

/// The map that a list of members builds up when they are inserted one
/// after the other: of two members with one key the later one stays.
pub open spec fn members_map(entries: Seq<(String, JsonValue)>) -> Map<Seq<char>, Json>
    decreases entries,
{
    if entries.len() == 0 {
        Map::empty()
    } else {
        members_map(entries.drop_last()).insert(entries.last().0@, entries.last().1.view())
    }
}

/// The values that a list of elements stands for, in the same order.
pub open spec fn elements_seq(elements: Seq<JsonValue>) -> Seq<Json>
    decreases elements,
{
    if elements.len() == 0 {
        Seq::empty()
    } else {
        elements_seq(elements.drop_last()).push(elements.last().view())
    }
}

/// The values of a list of elements are the values of its elements, place
/// by place.
pub proof fn lemma_elements_seq(elements: Seq<JsonValue>)
    ensures
        elements_seq(elements).len() == elements.len(),
        forall|i: int|
            0 <= i < elements.len() ==> #[trigger] elements_seq(elements)[i] == elements[i].view(),
    decreases elements.len(),
{
    if elements.len() > 0 {
        lemma_elements_seq(elements.drop_last());
    }
}

impl JsonValue {
    /// The mathematical value of this document.
    pub open spec fn view(&self) -> Json
        decreases self,
    {
        match self {
            JsonValue::Null => Json::Null,
            JsonValue::Bool(b) => Json::Bool(*b),
            JsonValue::Number(text) => Json::Number(text@),
            JsonValue::JsonString(text) => Json::Text(text@),
            JsonValue::Array(elements) => Json::Array(elements_seq(elements@)),
            JsonValue::Object(members) => Json::Object(members.view()),
        }
    }
}

/// Whether no key occurs twice among `entries`.
pub open spec fn keys_distinct(entries: Seq<(String, JsonValue)>) -> bool {
    forall|i: int, j: int|
        0 <= i < j < entries.len() ==> (#[trigger] entries[i]).0@ != (#[trigger] entries[j]).0@
}

/// Whether `key` is the key of one of `entries`.
pub open spec fn has_key(entries: Seq<(String, JsonValue)>, key: Seq<char>) -> bool {
    exists|i: int| 0 <= i < entries.len() && (#[trigger] entries[i]).0@ == key
}

/// The keys of the map are the keys of the members.
pub proof fn lemma_members_keys(entries: Seq<(String, JsonValue)>, key: Seq<char>)
    ensures
        members_map(entries).dom().contains(key) <==> has_key(entries, key),
    decreases entries.len(),
{
    if entries.len() > 0 {
        let front = entries.drop_last();
        lemma_members_keys(front, key);
        if has_key(front, key) {
            let i = choose|i: int| 0 <= i < front.len() && (#[trigger] front[i]).0@ == key;
            assert(entries[i].0@ == key);
        }
        if has_key(entries, key) {
            let i = choose|i: int| 0 <= i < entries.len() && (#[trigger] entries[i]).0@ == key;
            if i < front.len() {
                assert(front[i].0@ == key);
            }
        }
        assert(entries.last() == entries[entries.len() - 1]);
    }
}

/// Where no key occurs twice, each member's key maps to that member's value.
pub proof fn lemma_members_value(entries: Seq<(String, JsonValue)>, i: int)
    requires
        keys_distinct(entries),
        0 <= i < entries.len(),
    ensures
        members_map(entries).dom().contains(entries[i].0@),
        members_map(entries)[entries[i].0@] == entries[i].1.view(),
    decreases entries.len(),
{
    let front = entries.drop_last();
    if i < entries.len() - 1 {
        assert(keys_distinct(front)) by {
            assert forall|a: int, b: int| 0 <= a < b < front.len() implies (#[trigger] front[a]).0@
                != (#[trigger] front[b]).0@ by {
                assert(front[a] == entries[a]);
                assert(front[b] == entries[b]);
            }
        }
        lemma_members_value(front, i);
        assert(front[i] == entries[i]);
        assert(entries[i].0@ != entries[entries.len() - 1].0@);
    }
}

/// A list of members without a repeated key builds a map of as many keys.
pub proof fn lemma_members_len(entries: Seq<(String, JsonValue)>)
    requires
        keys_distinct(entries),
    ensures
        members_map(entries).dom().finite(),
        members_map(entries).dom().len() == entries.len(),
    decreases entries.len(),
{
    if entries.len() > 0 {
        let front = entries.drop_last();
        assert(keys_distinct(front)) by {
            assert forall|a: int, b: int| 0 <= a < b < front.len() implies (#[trigger] front[a]).0@
                != (#[trigger] front[b]).0@ by {
                assert(front[a] == entries[a]);
                assert(front[b] == entries[b]);
            }
        }
        lemma_members_len(front);
        let key = entries.last().0@;
        lemma_members_keys(front, key);
        if has_key(front, key) {
            let i = choose|i: int| 0 <= i < front.len() && (#[trigger] front[i]).0@ == key;
            assert(front[i] == entries[i]);
            assert(entries[i].0@ != entries[entries.len() - 1].0@);
        }
    }
}

/// Putting a new value in the place of a member gives the map with that
/// value under the member's key.
pub proof fn lemma_members_replace(
    entries: Seq<(String, JsonValue)>,
    i: int,
    entry: (String, JsonValue),
)
    requires
        keys_distinct(entries),
        0 <= i < entries.len(),
        entry.0@ == entries[i].0@,
    ensures
        keys_distinct(entries.update(i, entry)),
        members_map(entries.update(i, entry)) == members_map(entries).insert(
            entry.0@,
            entry.1.view(),
        ),
    decreases entries.len(),
{
    let changed = entries.update(i, entry);
    assert(keys_distinct(changed)) by {
        assert forall|a: int, b: int| 0 <= a < b < changed.len() implies (#[trigger] changed[a]).0@
            != (#[trigger] changed[b]).0@ by {
            assert(changed[a].0@ == entries[a].0@);
            assert(changed[b].0@ == entries[b].0@);
        }
    }
    let front = entries.drop_last();
    if i == entries.len() - 1 {
        assert(changed.drop_last() =~= front);
        assert(members_map(changed) =~= members_map(entries).insert(entry.0@, entry.1.view()));
    } else {
        assert(keys_distinct(front)) by {
            assert forall|a: int, b: int| 0 <= a < b < front.len() implies (#[trigger] front[a]).0@
                != (#[trigger] front[b]).0@ by {
                assert(front[a] == entries[a]);
                assert(front[b] == entries[b]);
            }
        }
        assert(front[i] == entries[i]);
        lemma_members_replace(front, i, entry);
        assert(changed.drop_last() =~= front.update(i, entry));
        assert(changed.last() == entries.last());
        assert(entries[i].0@ != entries[entries.len() - 1].0@);
        assert(members_map(changed) =~= members_map(entries).insert(entry.0@, entry.1.view()));
    }
}

impl JsonObject {
    /// The members as a map from key to value.
    pub closed spec fn view(&self) -> Map<Seq<char>, Json>
        decreases self,
    {
        members_map(self.entries@)
    }

    /// The members in the order in which their keys first came in.
    pub closed spec fn members(&self) -> Seq<(String, JsonValue)> {
        self.entries@
    }

    /// The invariant of an object: no key occurs twice.
    pub closed spec fn wf(&self) -> bool {
        keys_distinct(self.entries@)
    }

    /// Whether the value of every member is well formed.
    pub closed spec fn values_wf(&self) -> bool
        decreases self,
    {
        forall|i: int| 0 <= i < self.entries@.len() ==> (#[trigger] self.entries@[i]).1.wf()
    }

    /// The members of an object are smaller than the object, so that a
    /// proof may go from an object to its members.
    pub proof fn lemma_members_smaller(&self)
        ensures
            decreases_to!(self => self.members()),
    {
    }

    /// What the invariant means for the members and the map they build.
    pub proof fn lemma_wf(&self)
        requires
            self.wf(),
        ensures
            keys_distinct(self.members()),
            self@ == members_map(self.members()),
            self@.dom().finite(),
            self@.dom().len() == self.members().len(),
            forall|i: int|
                0 <= i < self.members().len() ==> {
                    &&& self@.dom().contains((#[trigger] self.members()[i]).0@)
                    &&& self@[self.members()[i].0@] == self.members()[i].1.view()
                },
            forall|key: Seq<char>| self@.dom().contains(key) <==> has_key(self.members(), key),
            self.values_wf() <==> forall|i: int|
                0 <= i < self.members().len() ==> (#[trigger] self.members()[i]).1.wf(),
    {
        lemma_members_len(self.entries@);
        assert forall|i: int| 0 <= i < self.members().len() implies {
            &&& self@.dom().contains((#[trigger] self.members()[i]).0@)
            &&& self@[self.members()[i].0@] == self.members()[i].1.view()
        } by {
            lemma_members_value(self.entries@, i);
        }
        assert forall|key: Seq<char>| self@.dom().contains(key) <==> has_key(
            self.members(),
            key,
        ) by {
            lemma_members_keys(self.entries@, key);
        }
    }

    /// An object without members.
    pub fn new() -> (object: JsonObject)
        ensures
            object.wf(),
            object.values_wf(),
            object@ == Map::<Seq<char>, Json>::empty(),
            object.members().len() == 0,
    {
        JsonObject { entries: Vec::new() }
    }

    /// The number of members.
    pub fn len(&self) -> (len: usize)
        requires
            self.wf(),
        ensures
            len == self@.dom().len(),
            len == self.members().len(),
    {
        proof {
            lemma_members_len(self.entries@);
        }
        self.entries.len()
    }

    /// The place of the member with the key `key`, if there is one.
    fn find(&self, key: &String) -> (place: Option<usize>)
        ensures
            match place {
                Some(i) => i < self.entries@.len() && self.entries@[i as int].0@ == key@,
                None => !has_key(self.entries@, key@),
            },
    {
        let mut i: usize = 0;
        while i < self.entries.len()
            invariant
                i <= self.entries@.len(),
                forall|j: int| 0 <= j < i ==> (#[trigger] self.entries@[j]).0@ != key@,
            decreases self.entries@.len() - i,
        {
            if self.entries[i].0 == *key {
                return Some(i);
            }
            i += 1;
        }
        None
    }

    /// The value under `key`, if the object has that key.
    pub fn get(&self, key: &String) -> (value: Option<&JsonValue>)
        requires
            self.wf(),
        ensures
            match value {
                Some(found) => self@.dom().contains(key@) && found.view() == self@[key@] && (
                self.values_wf() ==> found.wf()),
                None => !self@.dom().contains(key@),
            },
    {
        proof {
            self.lemma_wf();
        }
        match self.find(key) {
            Some(i) => Some(&self.entries[i].1),
            None => None,
        }
    }

    /// The key of the member at place `i`, in the order of first insertion.
    pub fn key_at(&self, i: usize) -> (key: &String)
        requires
            self.wf(),
            i < self.members().len(),
        ensures
            key == self.members()[i as int].0,
            self@.dom().contains(key@),
    {
        proof {
            self.lemma_wf();
        }
        &self.entries[i].0
    }

    /// The value of the member at place `i`, in the order of first insertion.
    pub fn value_at(&self, i: usize) -> (value: &JsonValue)
        requires
            self.wf(),
            i < self.members().len(),
        ensures
            *value == self.members()[i as int].1,
            value.view() == self@[self.members()[i as int].0@],
            self.values_wf() ==> value.wf(),
    {
        proof {
            self.lemma_wf();
        }
        &self.entries[i].1
    }

    /// Whether this object and `other` have the same members, in whatever
    /// order.
    pub fn equals(&self, other: &JsonObject) -> (same: bool)
        requires
            self.wf(),
            self.values_wf(),
            other.wf(),
            other.values_wf(),
        ensures
            same == (self@ == other@),
        decreases self,
    {
        proof {
            self.lemma_wf();
            other.lemma_wf();
        }
        if self.entries.len() != other.entries.len() {
            return false;
        }
        let mut i: usize = 0;
        while i < self.entries.len()
            invariant
                i <= self.entries@.len(),
                self.wf(),
                self.values_wf(),
                other.wf(),
                other.values_wf(),
                forall|j: int|
                    0 <= j < i ==> other@.dom().contains((#[trigger] self.entries@[j]).0@)
                        && other@[self.entries@[j].0@] == self.entries@[j].1.view(),
            decreases self.entries@.len() - i,
        {
            proof {
                self.lemma_wf();
                other.lemma_wf();
                assert(self.members()[i as int].1.wf());
            }
            match other.get(&self.entries[i].0) {
                Some(theirs) => {
                    if !self.entries[i].1.equals(theirs) {
                        return false;
                    }
                },
                None => {
                    return false;
                },
            }
            i += 1;
        }
        proof {
            self.lemma_wf();
            other.lemma_wf();
            assert forall|key: Seq<char>| #[trigger]
                self@.dom().contains(key) implies other@.dom().contains(key) && other@[key]
                == self@[key] by {
                assert(has_key(self.members(), key));
                let j = choose|j: int|
                    0 <= j < self.members().len() && (#[trigger] self.members()[j]).0@ == key;
                assert(self.entries@[j].0@ == key);
                assert(self@[key] == self.members()[j].1.view());
            }
            assert(self@.dom().subset_of(other@.dom()));
            vstd::set_lib::lemma_subset_equality(self@.dom(), other@.dom());
            assert(self@ =~= other@);
        }
        true
    }

    /// Puts `value` under `key`. A member with the same key is replaced, and
    /// every other member stays as it was.
    pub fn insert(&mut self, key: String, value: JsonValue)
        requires
            old(self).wf(),
        ensures
            final(self).wf(),
            final(self)@ == old(self)@.insert(key@, value.view()),
            old(self).values_wf() && value.wf() ==> final(self).values_wf(),
            forall|depth: nat|
                all_values_nest_within(old(self).members(), depth) && value.nests_within(depth)
                    ==> #[trigger] all_values_nest_within(final(self).members(), depth),
            all_members_short(old(self).members()) && short_text(key@) && value.short()
                ==> all_members_short(final(self).members()),
            final(self).members() == old(self).members().push((key, value)) || exists|i: int|
                0 <= i < old(self).members().len() && final(self).members() == old(
                    self,
                ).members().update(i, (key, value)),
    {
        let ghost before = self.entries@;
        match self.find(&key) {
            Some(i) => {
                proof {
                    lemma_members_replace(before, i as int, (key, value));
                }
                self.entries[i] = (key, value);
                assert(self.entries@ =~= before.update(i as int, (key, value)));
                proof {
                    if all_members_short(before) && short_text(key@) && value.short() {
                        assert forall|j: int| 0 <= j < self.entries@.len() implies short_text(
                            (#[trigger] self.entries@[j]).0@,
                        ) && self.entries@[j].1.short() by {
                            if j != i {
                                assert(short_text(before[j].0@));
                            }
                        }
                    }
                }
                assert forall|depth: nat|
                    all_values_nest_within(before, depth) && value.nests_within(
                        depth,
                    ) implies #[trigger] all_values_nest_within(self.entries@, depth) by {
                    assert forall|j: int| 0 <= j < self.entries@.len() implies (
                    #[trigger] self.entries@[j]).1.nests_within(depth) by {
                        if j != i {
                            assert(before[j].1.nests_within(depth));
                        }
                    }
                }
                proof {
                    if old(self).values_wf() && value.wf() {
                        assert forall|j: int| 0 <= j < self.entries@.len() implies (
                        #[trigger] self.entries@[j]).1.wf() by {
                            if j != i {
                                assert(before[j].1.wf());
                            }
                        }
                    }
                }
            },
            None => {
                self.entries.push((key, value));
                assert(self.entries@.drop_last() =~= before);
                proof {
                    if all_members_short(before) && short_text(key@) && value.short() {
                        assert forall|j: int| 0 <= j < self.entries@.len() implies short_text(
                            (#[trigger] self.entries@[j]).0@,
                        ) && self.entries@[j].1.short() by {
                            if j < before.len() {
                                assert(short_text(before[j].0@));
                            }
                        }
                    }
                }
                assert forall|depth: nat|
                    all_values_nest_within(before, depth) && value.nests_within(
                        depth,
                    ) implies #[trigger] all_values_nest_within(self.entries@, depth) by {
                    assert forall|j: int| 0 <= j < self.entries@.len() implies (
                    #[trigger] self.entries@[j]).1.nests_within(depth) by {
                        if j < before.len() {
                            assert(before[j].1.nests_within(depth));
                        }
                    }
                }
                assert forall|a: int, b: int| 0 <= a < b < self.entries@.len() implies (
                #[trigger] self.entries@[a]).0@ != (#[trigger] self.entries@[b]).0@ by {
                    assert(before[a] == self.entries@[a]);
                    if b < before.len() {
                        assert(before[b] == self.entries@[b]);
                    }
                }
                proof {
                    if old(self).values_wf() && value.wf() {
                        assert forall|j: int| 0 <= j < self.entries@.len() implies (
                        #[trigger] self.entries@[j]).1.wf() by {
                            if j < before.len() {
                                assert(before[j].1.wf());
                            }
                        }
                    }
                }
            },
        }
    }
}

/// The character of a decimal digit.
pub open spec fn digit_char(digit: int) -> char {
    ('0' as int + digit) as char
}

/// The decimal digits of a natural number, without leading zeros.
pub open spec fn decimal_digits(n: nat) -> Seq<char>
    decreases n,
{
    if n < 10 {
        seq![digit_char(n as int)]
    } else {
        decimal_digits(n / 10).push(digit_char((n % 10) as int))
    }
}

/// The decimal text of an integer: a minus sign before a negative one.
pub open spec fn decimal(n: int) -> Seq<char> {
    if n < 0 {
        seq!['-'] + decimal_digits((-n) as nat)
    } else {
        decimal_digits(n as nat)
    }
}

/// The decimal digits of a number are digits, at least one, and begin with
/// a zero for zero only.
pub proof fn lemma_decimal_digits(n: nat)
    ensures
        decimal_digits(n).len() >= 1,
        forall|i: int| 0 <= i < decimal_digits(n).len() ==> is_digit(#[trigger] decimal_digits(n)[i]),
        n == 0 ==> decimal_digits(n) == seq!['0'],
        n > 0 ==> decimal_digits(n)[0] != '0',
    decreases n,
{
    if n >= 10 {
        lemma_decimal_digits(n / 10);
    }
}

/// Where a text holds digits from `from` to its end, the run of digits at
/// `from` is all that is left of the text.
pub proof fn lemma_digits_to_end(t: Seq<char>, from: int)
    requires
        0 <= from <= t.len(),
        forall|i: int| from <= i < t.len() ==> is_digit(#[trigger] t[i]),
    ensures
        digits(t, from) == t.len() - from,
    decreases t.len() - from,
{
    if from < t.len() {
        assert(digit_at(t, from));
        lemma_digits_to_end(t, from + 1);
    }
}

/// The decimal text of an integer is a number.
pub proof fn lemma_decimal_is_number(n: int)
    ensures
        is_number(decimal(n)),
{
    let t = decimal(n);
    if n < 0 {
        let d = decimal_digits((-n) as nat);
        lemma_decimal_digits((-n) as nat);
        assert forall|i: int| 1 <= i < t.len() implies is_digit(#[trigger] t[i]) by {
            assert(t[i] == d[i - 1]);
        }
        assert(t[1] == d[0]);
        lemma_digits_to_end(t, 1);
    } else {
        lemma_decimal_digits(n as nat);
        lemma_digits_to_end(t, 0);
    }
}

/// Adds the decimal digits of `n` to `buffer`.
fn push_decimal(buffer: &mut String, n: u32)
    ensures
        final(buffer)@ == old(buffer)@ + decimal_digits(n as nat),
    decreases n,
{
    let ghost front = buffer@;
    if n >= 10 {
        push_decimal(buffer, n / 10);
    }
    let digit: u8 = (n % 10) as u8;
    push_char(buffer, (digit + 48u8) as char);
    assert(buffer@ =~= front + decimal_digits(n as nat));
}

/// The character of a hexadecimal digit, in lower case.
pub open spec fn hex_char(digit: int) -> char {
    if digit < 10 {
        ('0' as int + digit) as char
    } else {
        ('a' as int + digit - 10) as char
    }
}

/// How a character of a string is spelled: a quote and a backslash behind a
/// backslash, a character beyond the range of one byte and within that of
/// four hexadecimal digits as a `\u` escape, any other as itself.
pub open spec fn spelled_char(c: char) -> Seq<char> {
    if c == '"' || c == '\\' {
        seq!['\\', c]
    } else if 0x100 <= c as int <= 0xFFFF {
        seq![
            '\\',
            'u',
            hex_char(c as int / 0x1000),
            hex_char(c as int / 0x100 % 0x10),
            hex_char(c as int / 0x10 % 0x10),
            hex_char(c as int % 0x10),
        ]
    } else {
        seq![c]
    }
}

/// How the content of a string is spelled, closing quote included.
pub open spec fn spelled_tail(content: Seq<char>) -> Seq<char>
    decreases content.len(),
{
    if content.len() == 0 {
        seq!['"']
    } else {
        spelled_char(content[0]) + spelled_tail(content.drop_first())
    }
}

/// How a string is spelled, between its quotes.
pub open spec fn spelled_string(content: Seq<char>) -> Seq<char> {
    seq!['"'] + spelled_tail(content)
}

/// How a list of elements is spelled: each as it is spelled by itself, with
/// a comma between two of them.
pub open spec fn spelled_elements(elements: Seq<JsonValue>) -> Seq<char>
    decreases elements,
{
    if elements.len() == 0 {
        Seq::empty()
    } else if elements.len() == 1 {
        elements[0].spelled()
    } else {
        elements[0].spelled() + seq![','] + spelled_elements(elements.drop_first())
    }
}

/// How a list of members is spelled: each as its key, a colon and its
/// value, with a comma between two of them.
pub open spec fn spelled_members(entries: Seq<(String, JsonValue)>) -> Seq<char>
    decreases entries,
{
    if entries.len() == 0 {
        Seq::empty()
    } else if entries.len() == 1 {
        spelled_string(entries[0].0@) + seq![':'] + entries[0].1.spelled()
    } else {
        spelled_string(entries[0].0@) + seq![':'] + entries[0].1.spelled() + seq![',']
            + spelled_members(entries.drop_first())
    }
}

/// Whether every element of a list is nested no deeper than the decoder
/// follows.
pub open spec fn all_nest_within(elements: Seq<JsonValue>, depth: nat) -> bool {
    forall|i: int| 0 <= i < elements.len() ==> (#[trigger] elements[i]).nests_within(depth)
}

/// Whether the value of every member of a list is nested no deeper than the
/// decoder follows.
pub open spec fn all_values_nest_within(entries: Seq<(String, JsonValue)>, depth: nat) -> bool {
    forall|i: int| 0 <= i < entries.len() ==> (#[trigger] entries[i]).1.nests_within(depth)
}

/// Whether every character of a text can be spelled by an escape of four
/// hexadecimal digits at most.
pub open spec fn short_text(text: Seq<char>) -> bool {
    forall|i: int| 0 <= i < text.len() ==> (#[trigger] text[i]) as int <= 0xFFFF
}

/// Whether every element of a list is spelled in bytes.
pub open spec fn all_short(elements: Seq<JsonValue>) -> bool {
    forall|i: int| 0 <= i < elements.len() ==> (#[trigger] elements[i]).short()
}

/// Whether the key and the value of every member of a list are spelled in
/// bytes.
pub open spec fn all_members_short(entries: Seq<(String, JsonValue)>) -> bool {
    forall|i: int|
        0 <= i < entries.len() ==> short_text((#[trigger] entries[i]).0@) && entries[i].1.short()
}

/// Whether the value of every member of a list is well formed.
pub open spec fn all_values_wf(entries: Seq<(String, JsonValue)>) -> bool {
    forall|i: int| 0 <= i < entries.len() ==> (#[trigger] entries[i]).1.wf()
}

/// Whether every element of a list is well formed.
pub open spec fn all_wf(elements: Seq<JsonValue>) -> bool {
    forall|i: int| 0 <= i < elements.len() ==> (#[trigger] elements[i]).wf()
}

impl JsonValue {
    /// The invariant of a document: the text of every number in it is a
    /// number, and no object in it has a key twice.
    pub open spec fn wf(&self) -> bool
        decreases self,
    {
        match self {
            JsonValue::Number(text) => is_number(text@),
            JsonValue::Array(elements) => forall|i: int|
                0 <= i < elements@.len() ==> (#[trigger] elements@[i]).wf(),
            JsonValue::Object(members) => members.wf() && members.values_wf(),
            _ => true,
        }
    }

    /// A text that spells this document, without whitespace: the members of
    /// an object in the order in which they are kept.
    pub open spec fn spelled(&self) -> Seq<char>
        decreases self,
    {
        match self {
            JsonValue::Null => seq!['n', 'u', 'l', 'l'],
            JsonValue::Bool(b) => if *b {
                seq!['t', 'r', 'u', 'e']
            } else {
                seq!['f', 'a', 'l', 's', 'e']
            },
            JsonValue::Number(text) => text@,
            JsonValue::JsonString(text) => spelled_string(text@),
            JsonValue::Array(elements) => seq!['['] + spelled_elements(elements@) + seq![']'],
            JsonValue::Object(members) => seq!['{'] + spelled_members(members.members())
                + seq!['}'],
        }
    }

    /// Whether this document, standing within `depth` arrays and objects, is
    /// nested no deeper than the decoder follows.
    pub open spec fn nests_within(&self, depth: nat) -> bool
        decreases self,
    {
        match self {
            JsonValue::Array(elements) => depth < MAX_DEPTH && forall|i: int|
                0 <= i < elements@.len() ==> (#[trigger] elements@[i]).nests_within(depth + 1),
            JsonValue::Object(members) => depth < MAX_DEPTH && forall|i: int|
                0 <= i < members.members().len() ==> (#[trigger] members.members()[i]).1.nests_within(
                    depth + 1,
                ),
            _ => true,
        }
    }

    /// Whether this document is spelled in bytes: no string in it, and no
    /// key, has a character beyond the reach of an escape.
    pub open spec fn short(&self) -> bool
        decreases self,
    {
        match self {
            JsonValue::JsonString(text) => short_text(text@),
            JsonValue::Array(elements) => forall|i: int|
                0 <= i < elements@.len() ==> (#[trigger] elements@[i]).short(),
            JsonValue::Object(members) => forall|i: int|
                0 <= i < members.members().len() ==> short_text(
                    (#[trigger] members.members()[i]).0@,
                ) && members.members()[i].1.short(),
            _ => true,
        }
    }

    /// The string `value` as a document.
    pub fn from_str(value: String) -> (json: JsonValue)
        ensures
            json.view() == Json::Text(value@),
            json.wf(),
    {
        JsonValue::JsonString(value)
    }

    /// The truth value `value` as a document.
    pub fn from_bool(value: bool) -> (json: JsonValue)
        ensures
            json.view() == Json::Bool(value),
            json.wf(),
    {
        match value {
            true => JsonValue::Bool(true),
            false => JsonValue::Bool(false),
        }
    }

    /// The array of the elements `value`, in their order.
    pub fn from_vec(value: Vec<JsonValue>) -> (json: JsonValue)
        ensures
            json.view() == Json::Array(elements_seq(value@)),
            all_wf(value@) ==> json.wf(),
    {
        JsonValue::Array(value)
    }

    /// The integer `value` as a document: a number with the decimal text of
    /// `value`.
    pub fn from_int(value: i32) -> (json: JsonValue)
        ensures
            json.view() == Json::Number(decimal(value as int)),
            json.wf(),
    {
        let mut text = String::new();
        let wide: i64 = value as i64;
        let magnitude: u32 = if wide < 0 {
            push_char(&mut text, '-');
            (-wide) as u32
        } else {
            wide as u32
        };
        push_decimal(&mut text, magnitude);
        proof {
            assert(text@ =~= decimal(value as int));
            lemma_decimal_is_number(value as int);
        }
        JsonValue::Number(text)
    }

    /// The object with the members `value`. Where a key occurs more than
    /// once, the last member with that key stays.
    pub fn from_set(value: Vec<(String, JsonValue)>) -> (json: JsonValue)
        ensures
            json.view() == Json::Object(members_map(value@)),
            all_values_wf(value@) ==> json.wf(),
    {
        let ghost given = value@;
        let mut rest = value;
        let mut turned: Vec<(String, JsonValue)> = Vec::new();
        while rest.len() > 0
            invariant
                rest@.len() + turned@.len() == given.len(),
                rest@ == given.take(rest@.len() as int),
                forall|i: int|
                    0 <= i < turned@.len() ==> #[trigger] turned@[i] == given[given.len() - 1 - i],
            decreases rest@.len(),
        {
            match rest.pop() {
                Some(entry) => {
                    turned.push(entry);
                    assert(rest@ =~= given.take(rest@.len() as int));
                },
                None => {},
            }
        }
        let mut members = JsonObject::new();
        assert(given.take(0) =~= Seq::<(String, JsonValue)>::empty());
        while turned.len() > 0
            invariant
                turned@.len() <= given.len(),
                forall|i: int|
                    0 <= i < turned@.len() ==> #[trigger] turned@[i] == given[given.len() - 1 - i],
                members.wf(),
                all_values_wf(given) ==> members.values_wf(),
                members@ == members_map(given.take(given.len() - turned@.len())),
            decreases turned@.len(),
        {
            let ghost done = given.len() - turned@.len();
            match turned.pop() {
                Some(entry) => {
                    proof {
                        assert(entry == given[done]);
                        assert(given.take(done + 1).drop_last() =~= given.take(done));
                        assert(given.take(done + 1).last() == given[done]);
                    }
                    members.insert(entry.0, entry.1);
                },
                None => {},
            }
        }
        assert(given.take(given.len() as int) =~= given);
        JsonValue::Object(members)
    }

    /// Whether this document and `other` are structurally equal: the same
    /// kind of value with the same content, arrays element by element in
    /// order, objects member by member in whatever order. Numbers are equal
    /// where their texts are.
    pub fn equals(&self, other: &JsonValue) -> (same: bool)
        requires
            self.wf(),
            other.wf(),
        ensures
            same == (self.view() == other.view()),
        decreases self,
    {
        match (self, other) {
            (JsonValue::Null, JsonValue::Null) => true,
            (JsonValue::Bool(mine), JsonValue::Bool(theirs)) => *mine == *theirs,
            (JsonValue::Number(mine), JsonValue::Number(theirs)) => *mine == *theirs,
            (JsonValue::JsonString(mine), JsonValue::JsonString(theirs)) => *mine == *theirs,
            (JsonValue::Array(mine), JsonValue::Array(theirs)) => {
                proof {
                    lemma_elements_seq(mine@);
                    lemma_elements_seq(theirs@);
                }
                if mine.len() != theirs.len() {
                    return false;
                }
                let mut i: usize = 0;
                while i < mine.len()
                    invariant
                        i <= mine@.len(),
                        mine@.len() == theirs@.len(),
                        all_wf(mine@),
                        all_wf(theirs@),
                        *self == JsonValue::Array(*mine),
                        *other == JsonValue::Array(*theirs),
                        elements_seq(mine@).len() == mine@.len(),
                        elements_seq(theirs@).len() == theirs@.len(),
                        forall|j: int|
                            0 <= j < mine@.len() ==> #[trigger] elements_seq(mine@)[j]
                                == mine@[j].view(),
                        forall|j: int|
                            0 <= j < theirs@.len() ==> #[trigger] elements_seq(theirs@)[j]
                                == theirs@[j].view(),
                        forall|j: int| 0 <= j < i ==> (#[trigger] mine@[j]).view() == theirs@[j].view(),
                    decreases mine@.len() - i,
                {
                    if !mine[i].equals(&theirs[i]) {
                        assert(elements_seq(mine@)[i as int] != elements_seq(theirs@)[i as int]);
                        return false;
                    }
                    i += 1;
                }
                assert(elements_seq(mine@) =~= elements_seq(theirs@));
                true
            },
            (JsonValue::Object(mine), JsonValue::Object(theirs)) => mine.equals(theirs),
            _ => false,
        }
    }
}

} // verus!
