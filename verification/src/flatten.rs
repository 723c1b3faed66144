//! The table codec, graph to workbook: one table of type memberships, one
//! table for each type, one for each multi-valued reference, and a table
//! that records what each generated sheet stands for.

use vstd::prelude::*;
use crate::error::ToolError;
use crate::json::{items_view, JsonValue, JsonView, scalar_json, text_of_json};
use crate::model::{
    ArrayValue, clone_strings, contains_text, entries, insert_sorted, insert_text, Node,
    nodes_view, NodeView, PropertyValue, PropertyView, scalars, ScalarValue, ScalarView, texts,
};
use crate::order::{lemma_upper_is, place, sort};
use crate::pairs::{clone_pairs, pairs_view};
use crate::rows::{Row, row_lt, rows_view, sort_rows, wide};
use crate::text::{
    char_is_control, copy, decimal, from_chars, is_control, is_digit, join, lemma_decimal,
    power_of_ten, push_decimal, str_eq, str_lt, strictly_sorted, sub_string, text_lt, to_chars,
    trim, trimmed,
};

verus! {

/// The type under which a node without types is listed.
pub const UNTYPED_MARKER: &'static str = "__untyped__";

/// The sheet that lists each node with each of its types.
pub const ENTITIES_SHEET: &'static str = "Entities";

/// The sheet that records what each generated sheet stands for.
pub const METADATA_SHEET: &'static str = "Metadata";

/// The greatest number of characters in a sheet name.
pub const SHEET_NAME_WIDTH: usize = 31;

/// The mathematical value of a [`SheetTable`].
pub struct SheetView {
    pub sheet_name: Seq<char>,
    pub columns: Seq<Seq<char>>,
    pub rows: Seq<Seq<Seq<char>>>,
}

/// A table that becomes one sheet: its name, its header row and its rows.
#[derive(Debug, Clone, PartialEq, Eq)]
pub struct SheetTable {
    pub sheet_name: String,
    pub columns: Vec<String>,
    pub rows: Vec<Vec<String>>,
}

impl View for SheetTable {
    type V = SheetView;

    open spec fn view(&self) -> SheetView {
        SheetView {
            sheet_name: self.sheet_name@,
            columns: texts(self.columns@),
            rows: rows_view(self.rows@),
        }
    }
}

/// The tables of a workbook, in the order of its sheets.
#[derive(Debug, Clone, PartialEq, Eq)]
pub struct WorkbookData {
    pub tables: Vec<SheetTable>,
}

impl View for WorkbookData {
    type V = Seq<SheetView>;

    open spec fn view(&self) -> Seq<SheetView> {
        self.tables@.map_values(|table: SheetTable| table@)
    }
}

/// A character that a sheet name cannot hold.
pub open spec fn is_forbidden(c: char) -> bool {
    ||| c == ':'
    ||| c == '\\'
    ||| c == '/'
    ||| c == '?'
    ||| c == '*'
    ||| c == '['
    ||| c == ']'
    ||| c == '\''
    ||| c == '"'
    ||| is_control(c)
}

/// `raw` with an underscore in place of each forbidden character.
pub open spec fn cleaned(raw: Seq<char>) -> Seq<char> {
    raw.map_values(|c: char| if is_forbidden(c) { '_' } else { c })
}

/// The sheet name made from `raw`: forbidden characters replaced, white
/// space trimmed from both ends, `Sheet` where nothing is left, and cut to
/// the width of a sheet name.
pub open spec fn sanitized(raw: Seq<char>) -> Seq<char> {
    let kept = trimmed(cleaned(raw));
    let named = if kept.len() == 0 { "Sheet"@ } else { kept };
    if named.len() > SHEET_NAME_WIDTH { named.take(SHEET_NAME_WIDTH as int) } else { named }
}

/// A text that can serve as a sheet name: not too long, without forbidden
/// characters.
pub open spec fn is_sheet_name(name: Seq<char>) -> bool {
    &&& name.len() <= SHEET_NAME_WIDTH
    &&& forall|i: int| 0 <= i < name.len() ==> !is_forbidden(#[trigger] name[i])
}

/// Whether a sheet name cannot hold the character.
fn char_is_forbidden(c: char) -> (r: bool)
    ensures
        r == is_forbidden(c),
{
    c == ':' || c == '\\' || c == '/' || c == '?' || c == '*' || c == '[' || c == ']' || c == '\''
        || c == '"' || char_is_control(c)
}

/// The sheet name made from `raw`.
pub fn sanitize_sheet_name(raw: &str) -> (name: String)
    ensures
        name@ == sanitized(raw@),
        is_sheet_name(name@),
{
    let source = to_chars(raw);
    let mut clean: Vec<char> = Vec::new();
    let mut i: usize = 0;
    while i < source.len()
        invariant
            i <= source.len(),
            clean.len() == i,
            forall|k: int| 0 <= k < i ==> clean@[k] == cleaned(source@)[k],
        decreases source.len() - i,
    {
        let c = source[i];
        clean.push(if char_is_forbidden(c) { '_' } else { c });
        i += 1;
    }
    assert(clean@ =~= cleaned(raw@));
    let whole = from_chars(&clean);
    let kept = trim(whole.as_str());
    let kept_chars = to_chars(kept.as_str());
    proof {
        reveal_strlit("Sheet");
        lemma_trimmed_within(clean@);
    }
    let named: Vec<char> = if kept_chars.len() == 0 {
        to_chars("Sheet")
    } else {
        kept_chars
    };
    let end = if named.len() > SHEET_NAME_WIDTH { SHEET_NAME_WIDTH } else { named.len() };
    let name = sub_string(&named, 0, end);
    proof {
        assert(named@.subrange(0, named@.len() as int) =~= named@);
        assert forall|i: int| 0 <= i < name@.len() implies !is_forbidden(#[trigger] name@[i]) by {
            assert(name@[i] == named@[i]);
        }
    }
    name
}

/// A trimmed text is a stretch of the text it was trimmed from.
pub proof fn lemma_trimmed_within(s: Seq<char>)
    ensures
        exists|i: int, j: int| 0 <= i <= j <= s.len() && trimmed(s) == s.subrange(i, j),
{
    crate::text::lemma_skip_spaces(s, 0);
    let i = crate::text::skip_spaces(s, 0);
    crate::text::lemma_drop_spaces(s, i, s.len() as int);
    let j = crate::text::drop_spaces(s, i, s.len() as int);
    assert(0 <= i <= j <= s.len() && trimmed(s) == s.subrange(i, j));
}

/// What is put behind a sheet name to tell it from one in use: an
/// underscore and the number `k`.
pub open spec fn suffix(k: nat) -> Seq<char> {
    seq!['_'] + decimal(k)
}

/// The `k`-th name after `base`: `base`, cut so that the whole fits a sheet
/// name, and the suffix for `k`.
pub open spec fn candidate(base: Seq<char>, k: nat) -> Seq<char> {
    let room = SHEET_NAME_WIDTH - suffix(k).len();
    (if base.len() > room { base.take(room) } else { base }) + suffix(k)
}

/// The first number from `k` on whose candidate is not in use, looking at
/// no more than `tries` of them.
pub open spec fn first_free(used: Seq<Seq<char>>, base: Seq<char>, k: nat, tries: nat) -> nat
    decreases tries,
{
    if tries == 0 || !used.contains(candidate(base, k)) {
        k
    } else {
        first_free(used, base, k + 1, (tries - 1) as nat)
    }
}

/// The name given to `raw` where the names in `used` are taken: its
/// sanitized form if that is free, else the first free candidate after it.
pub open spec fn assigned(used: Seq<Seq<char>>, raw: Seq<char>) -> Seq<char> {
    let base = sanitized(raw);
    if !used.contains(base) {
        base
    } else {
        candidate(base, first_free(used, base, 1, used.len()))
    }
}

/// The numbers that `k` can take while a name is looked for.
pub open spec fn in_reach(k: nat) -> bool {
    k < power_of_ten(20)
}

/// The suffix for a number in reach is an underscore and up to twenty
/// digits.
proof fn lemma_suffix(k: nat)
    requires
        in_reach(k),
    ensures
        2 <= suffix(k).len() <= 21,
        suffix(k)[0] == '_',
        forall|i: int| 1 <= i < suffix(k).len() ==> is_digit(#[trigger] suffix(k)[i]),
{
    lemma_decimal(k, 20);
    assert forall|i: int| 1 <= i < suffix(k).len() implies is_digit(#[trigger] suffix(k)[i]) by {
        assert(suffix(k)[i] == decimal(k)[i - 1]);
    }
}

/// A candidate is a sheet name where its base is one.
proof fn lemma_candidate_is_sheet_name(base: Seq<char>, k: nat)
    requires
        is_sheet_name(base),
        in_reach(k),
    ensures
        is_sheet_name(candidate(base, k)),
{
    lemma_suffix(k);
    let name = candidate(base, k);
    let room = SHEET_NAME_WIDTH - suffix(k).len();
    let head = if base.len() > room { base.take(room) } else { base };
    assert forall|i: int| 0 <= i < name.len() implies !is_forbidden(#[trigger] name[i]) by {
        if i < head.len() {
            assert(name[i] == base[i]);
        } else {
            assert(name[i] == suffix(k)[i - head.len()]);
        }
    }
}

/// Different numbers give different candidates.
proof fn lemma_candidate_injective(base: Seq<char>, j: nat, k: nat)
    requires
        in_reach(j),
        in_reach(k),
        candidate(base, j) == candidate(base, k),
    ensures
        j == k,
{
    lemma_suffix(j);
    lemma_suffix(k);
    lemma_decimal(j, 20);
    lemma_decimal(k, 20);
    let name = candidate(base, j);
    let n = name.len() as int;
    let a = decimal(j);
    let b = decimal(k);
    let room_j = SHEET_NAME_WIDTH - suffix(j).len();
    let head_j = if base.len() > room_j { base.take(room_j) } else { base };
    let room_k = SHEET_NAME_WIDTH - suffix(k).len();
    let head_k = if base.len() > room_k { base.take(room_k) } else { base };
    assert(name == head_j + suffix(j));
    assert(name == head_k + suffix(k));
    assert(n == head_j.len() + 1 + a.len());
    assert(n == head_k.len() + 1 + b.len());
    assert(name[n - a.len() - 1] == suffix(j)[0]);
    assert(name[n - b.len() - 1] == suffix(k)[0]);
    if a.len() < b.len() {
        let at = n - a.len() - 1;
        assert(name[at] == suffix(k)[at - head_k.len()]);
        assert(is_digit(suffix(k)[at - head_k.len()]));
    } else if b.len() < a.len() {
        let at = n - b.len() - 1;
        assert(name[at] == suffix(j)[at - head_j.len()]);
        assert(is_digit(suffix(j)[at - head_j.len()]));
    } else {
        assert(a =~= b) by {
            assert forall|i: int| 0 <= i < a.len() implies a[i] == b[i] by {
                assert(name[head_j.len() + 1 + i] == suffix(j)[1 + i]);
                assert(name[head_k.len() + 1 + i] == suffix(k)[1 + i]);
            }
        }
    }
}

/// Where the candidates for `n` numbers in a row are all in `used`, `used`
/// holds at least `n` different names.
proof fn lemma_candidates_fill(used: Set<Seq<char>>, base: Seq<char>, k: nat, n: nat)
    requires
        used.finite(),
        in_reach(k + n),
        forall|j: nat| k <= j < k + n ==> used.contains(#[trigger] candidate(base, j)),
    ensures
        used.len() >= n,
    decreases n,
{
    if n > 0 {
        let first = candidate(base, k);
        let rest = used.remove(first);
        assert forall|j: nat| k + 1 <= j < k + n implies rest.contains(
            #[trigger] candidate(base, j),
        ) by {
            assert(used.contains(candidate(base, j)));
            if candidate(base, j) == first {
                lemma_power_of_ten_rises(j, k + n);
                lemma_power_of_ten_rises(k, k + n);
                lemma_candidate_injective(base, j, k);
            }
        }
        lemma_power_of_ten_rises(k + n, k + n);
        lemma_candidates_fill(rest, base, k + 1, (n - 1) as nat);
    }
}

/// `in_reach` holds of every number up to one of which it holds.
proof fn lemma_power_of_ten_rises(j: nat, k: nat)
    requires
        j <= k,
        in_reach(k),
    ensures
        in_reach(j),
{
}

/// What `first_free` finds: every candidate before it is in use, and it is
/// no further than `tries` from where the search began.
proof fn lemma_first_free(used: Seq<Seq<char>>, base: Seq<char>, k: nat, tries: nat)
    ensures
        k <= first_free(used, base, k, tries) <= k + tries,
        forall|j: nat|
            k <= j < first_free(used, base, k, tries) ==> used.contains(
                #[trigger] candidate(base, j),
            ),
        first_free(used, base, k, tries) < k + tries ==> !used.contains(
            candidate(base, first_free(used, base, k, tries)),
        ),
    decreases tries,
{
    if tries == 0 || !used.contains(candidate(base, k)) {
    } else {
        lemma_first_free(used, base, k + 1, (tries - 1) as nat);
    }
}

/// Usize values are in reach of the search for a name.
proof fn lemma_machine_in_reach(n: nat)
    requires
        n <= 0x1_0000_0000_0000_0002,
    ensures
        in_reach(n),
{
    assert(power_of_ten(20) == 100_000_000_000_000_000_000) by {
        reveal_with_fuel(power_of_ten, 21);
    }
}

/// The assigned name is a sheet name that was not in use.
pub proof fn lemma_assigned(used: Seq<Seq<char>>, raw: Seq<char>)
    requires
        used.no_duplicates(),
        used.len() < 0x1_0000_0000_0000_0000,
        is_sheet_name(sanitized(raw)),
    ensures
        !used.contains(assigned(used, raw)),
        is_sheet_name(assigned(used, raw)),
{
    let base = sanitized(raw);
    if used.contains(base) {
        let tries = used.len();
        let k = first_free(used, base, 1, tries);
        lemma_first_free(used, base, 1, tries);
        lemma_machine_in_reach(k);
        lemma_machine_in_reach(tries + 1);
        lemma_candidate_is_sheet_name(base, k);
        if used.contains(candidate(base, k)) {
            let set = used.to_set();
            assert forall|j: nat| 1 <= j < 1 + (tries + 1) implies set.contains(
                #[trigger] candidate(base, j),
            ) by {
                assert(used.contains(candidate(base, j)));
            }
            lemma_machine_in_reach(1 + (tries + 1));
            lemma_candidates_fill(set, base, 1, tries + 1);
            used.unique_seq_to_set();
        }
    }
}

/// The sheet names that are in use.
pub struct SheetNameRegistry {
    used: Vec<String>,
}

impl View for SheetNameRegistry {
    type V = Seq<Seq<char>>;

    closed spec fn view(&self) -> Seq<Seq<char>> {
        texts(self.used@)
    }
}

impl SheetNameRegistry {
    #[verifier::type_invariant]
    spec fn well_formed(&self) -> bool {
        strictly_sorted(texts(self.used@))
    }

    /// A registry in which no name is in use.
    pub fn new() -> (registry: SheetNameRegistry)
        ensures
            registry@ == Seq::<Seq<char>>::empty(),
    {
        let registry = SheetNameRegistry { used: Vec::new() };
        assert(texts(registry.used@) =~= Seq::<Seq<char>>::empty());
        registry
    }

    /// Marks `name` as in use.
    pub fn claim(&mut self, name: String)
        ensures
            final(self)@ == insert_text(old(self)@, name@),
            strictly_sorted(old(self)@),
            strictly_sorted(final(self)@),
    {
        proof {
            use_type_invariant(&*self);
        }
        let mut used: Vec<String> = Vec::new();
        assert(texts(used@) =~= seq![]);
        core::mem::swap(&mut self.used, &mut used);
        insert_sorted(&mut used, name);
        self.used = used;
    }

    /// Whether `name` is in use.
    pub fn is_used(&self, name: &str) -> (r: bool)
        ensures
            r == self@.contains(name@),
            strictly_sorted(self@),
    {
        proof {
            use_type_invariant(self);
        }
        contains_text(&self.used, name)
    }

    /// How many names are in use.
    pub fn len(&self) -> (n: usize)
        ensures
            n == self@.len(),
    {
        self.used.len()
    }

    /// Gives `raw` a sheet name that is not in use yet, and marks that name
    /// as in use.
    pub fn assign(&mut self, raw: &str) -> (name: String)
        ensures
            name@ == assigned(old(self)@, raw@),
            final(self)@ == insert_text(old(self)@, name@),
            !old(self)@.contains(name@),
            is_sheet_name(name@),
            strictly_sorted(old(self)@),
            strictly_sorted(final(self)@),
    {
        let base = sanitize_sheet_name(raw);
        let ghost used = self@;
        let tries: usize = self.len();
        proof {
            use_type_invariant(&*self);
            lemma_sorted_no_duplicates(used);
            lemma_assigned(used, raw@);
        }
        if !self.is_used(base.as_str()) {
            self.claim(base.clone());
            return base;
        }
        let base_chars = to_chars(base.as_str());
        let mut tried: usize = 0;
        let mut counter: u128 = 1;
        let mut name = candidate_name(&base_chars, counter);
        while tried < tries && self.is_used(name.as_str())
            invariant
                self@ == used,
                tries == used.len(),
                tried <= tries,
                counter == tried + 1,
                base_chars@ == sanitized(raw@),
                name@ == candidate(base_chars@, counter as nat),
                first_free(used, base_chars@, 1, tries as nat) == first_free(
                    used,
                    base_chars@,
                    counter as nat,
                    (tries - tried) as nat,
                ),
            decreases tries - tried,
        {
            tried += 1;
            counter += 1;
            name = candidate_name(&base_chars, counter);
        }
        self.claim(name.clone());
        name
    }
}

/// A strictly sorted sequence holds no text twice.
pub proof fn lemma_sorted_no_duplicates(s: Seq<Seq<char>>)
    requires
        strictly_sorted(s),
    ensures
        s.no_duplicates(),
{
    assert forall|i: int, j: int| 0 <= i < s.len() && 0 <= j < s.len() && i != j implies s[i]
        != s[j] by {
        if i < j {
            crate::text::lemma_text_lt_asymmetric(s[i], s[j]);
        } else {
            crate::text::lemma_text_lt_asymmetric(s[j], s[i]);
        }
    }
}

/// The `counter`-th name after the base with the given characters.
fn candidate_name(base: &Vec<char>, counter: u128) -> (name: String)
    requires
        counter <= 0x1_0000_0000_0000_0002,
    ensures
        name@ == candidate(base@, counter as nat),
{
    let mut tail: Vec<char> = Vec::new();
    tail.push('_');
    push_decimal(counter, &mut tail);
    proof {
        lemma_machine_in_reach(counter as nat);
        lemma_suffix(counter as nat);
        assert(tail@ =~= suffix(counter as nat));
    }
    let room: usize = SHEET_NAME_WIDTH - tail.len();
    let keep: usize = if base.len() > room { room } else { base.len() };
    let mut whole: Vec<char> = Vec::new();
    let mut i: usize = 0;
    while i < keep
        invariant
            i <= keep <= base.len(),
            whole@ == base@.take(i as int),
        decreases keep - i,
    {
        whole.push(base[i]);
        assert(whole@ =~= base@.take(i + 1));
        i += 1;
    }
    let mut j: usize = 0;
    while j < tail.len()
        invariant
            j <= tail.len(),
            whole@ == base@.take(keep as int) + tail@.take(j as int),
        decreases tail.len() - j,
    {
        whole.push(tail[j]);
        assert(whole@ =~= base@.take(keep as int) + tail@.take(j + 1));
        j += 1;
    }
    proof {
        assert(tail@.take(tail@.len() as int) =~= tail@);
        assert(base@.take(base@.len() as int) =~= base@);
    }
    from_chars(&whole)
}

/// The types under which a node is listed: its own, or the marker for a
/// node without types.
pub open spec fn node_types(node: NodeView) -> Seq<Seq<char>> {
    if node.types.len() == 0 {
        seq![UNTYPED_MARKER@]
    } else {
        node.types
    }
}

/// The types under which `node` is listed, in rising order.
pub fn types_of(node: &Node) -> (r: Vec<String>)
    ensures
        texts(r@) == node_types(node@),
        strictly_sorted(texts(r@)),
        r.len() >= 1,
{
    let types = node.types();
    if types.len() == 0 {
        let mut r: Vec<String> = Vec::new();
        r.push(copy(UNTYPED_MARKER));
        assert(texts(r@) =~= seq![UNTYPED_MARKER@]);
        r
    } else {
        clone_strings(types)
    }
}

/// A sorted sequence of texts with each of `items` put in.
pub open spec fn insert_all(set: Seq<Seq<char>>, items: Seq<Seq<char>>) -> Seq<Seq<char>>
    decreases items.len(),
{
    if items.len() == 0 {
        set
    } else {
        insert_text(insert_all(set, items.drop_last()), items.last())
    }
}

/// Every type under which a node of `nodes` is listed, once each, in
/// rising order.
pub open spec fn all_types(nodes: Seq<NodeView>) -> Seq<Seq<char>>
    decreases nodes.len(),
{
    if nodes.len() == 0 {
        seq![]
    } else {
        insert_all(all_types(nodes.drop_last()), node_types(nodes.last()))
    }
}

/// Puts each of `items` into the sorted list `set`.
fn insert_each(set: &mut Vec<String>, items: &Vec<String>)
    requires
        strictly_sorted(texts(old(set)@)),
    ensures
        texts(final(set)@) == insert_all(texts(old(set)@), texts(items@)),
        strictly_sorted(texts(final(set)@)),
{
    let ghost start = texts(set@);
    let ghost all = texts(items@);
    let mut i: usize = 0;
    while i < items.len()
        invariant
            i <= items.len(),
            all == texts(items@),
            strictly_sorted(texts(set@)),
            texts(set@) == insert_all(start, all.take(i as int)),
        decreases items.len() - i,
    {
        proof {
            assert(all.take(i + 1).drop_last() =~= all.take(i as int));
            assert(all.take(i + 1).last() == items@[i as int]@);
        }
        insert_sorted(set, items[i].clone());
        i += 1;
    }
    proof {
        assert(all.take(items@.len() as int) =~= all);
    }
}

/// Every type under which a node of `nodes` is listed.
pub fn collect_types(nodes: &[Node]) -> (r: Vec<String>)
    ensures
        texts(r@) == all_types(nodes_view(nodes@)),
        strictly_sorted(texts(r@)),
{
    let mut r: Vec<String> = Vec::new();
    let ghost views = nodes_view(nodes@);
    assert(texts(r@) =~= seq![]);
    let mut i: usize = 0;
    while i < nodes.len()
        invariant
            i <= nodes.len(),
            views == nodes_view(nodes@),
            strictly_sorted(texts(r@)),
            texts(r@) == all_types(views.take(i as int)),
        decreases nodes.len() - i,
    {
        proof {
            assert(views.take(i + 1).drop_last() =~= views.take(i as int));
            assert(views.take(i + 1).last() == nodes@[i as int]@);
        }
        let types = types_of(&nodes[i]);
        insert_each(&mut r, &types);
        i += 1;
    }
    proof {
        assert(views.take(nodes@.len() as int) =~= views);
    }
    r
}

/// One row `(id, type)` for each type under which `node` is listed.
pub open spec fn node_memberships(node: NodeView) -> Seq<Row> {
    node_types(node).map_values(|class: Seq<char>| seq![node.id, class])
}

/// The rows `(id, type)` of all nodes, node by node.
pub open spec fn memberships(nodes: Seq<NodeView>) -> Seq<Row>
    decreases nodes.len(),
{
    if nodes.len() == 0 {
        seq![]
    } else {
        memberships(nodes.drop_last()) + node_memberships(nodes.last())
    }
}

/// The rows `(id, type)` of all nodes, node by node.
pub fn collect_memberships(nodes: &[Node]) -> (rows: Vec<Vec<String>>)
    ensures
        rows_view(rows@) == memberships(nodes_view(nodes@)),
        wide(rows_view(rows@), 2),
{
    let mut rows: Vec<Vec<String>> = Vec::new();
    let ghost views = nodes_view(nodes@);
    assert(rows_view(rows@) =~= seq![]);
    let mut i: usize = 0;
    while i < nodes.len()
        invariant
            i <= nodes.len(),
            views == nodes_view(nodes@),
            rows_view(rows@) == memberships(views.take(i as int)),
            wide(rows_view(rows@), 2),
        decreases nodes.len() - i,
    {
        proof {
            assert(views.take(i + 1).drop_last() =~= views.take(i as int));
            assert(views.take(i + 1).last() == nodes@[i as int]@);
        }
        let node = &nodes[i];
        let types = types_of(node);
        let ghost before = rows_view(rows@);
        let ghost own = node_memberships(node@);
        let mut j: usize = 0;
        while j < types.len()
            invariant
                j <= types.len(),
                texts(types@) == node_types(node@),
                own == node_memberships(node@),
                rows_view(rows@) == before + own.take(j as int),
                wide(rows_view(rows@), 2),
            decreases types.len() - j,
        {
            let mut row: Vec<String> = Vec::new();
            row.push(node.id().clone());
            row.push(types[j].clone());
            let ghost prior = rows_view(rows@);
            rows.push(row);
            proof {
                assert(texts(row@) =~= seq![node@.id, texts(types@)[j as int]]);
                assert(rows_view(rows@) =~= prior.push(texts(row@)));
                assert(own.take(j + 1) =~= own.take(j as int).push(own[j as int]));
                assert(rows_view(rows@) =~= before + own.take(j + 1));
                assert forall|k: int| 0 <= k < rows_view(rows@).len() implies (
                #[trigger] rows_view(rows@)[k]).len() >= 2 by {
                    if k < prior.len() {
                        assert(rows_view(rows@)[k] == prior[k]);
                    }
                }
            }
            j += 1;
        }
        proof {
            assert(own.take(types@.len() as int) =~= own);
        }
        i += 1;
    }
    proof {
        assert(views.take(nodes@.len() as int) =~= views);
    }
    rows
}

/// The JSON array that stands for a list of literals.
pub open spec fn array_json(items: Seq<ScalarView>) -> JsonView {
    JsonView::Array(items.map_values(|item: ScalarView| scalar_json(item)))
}

/// The column of a type table in which a property stands: the predicate
/// for literals, the predicate followed by `Id` for a single reference. A
/// list of references has no column.
pub open spec fn column_of(entry: (Seq<char>, PropertyView)) -> Option<Seq<char>> {
    match entry.1 {
        PropertyView::Scalar(_) => Some(entry.0),
        PropertyView::Scalars(_) => Some(entry.0),
        PropertyView::ObjectRef(_) => Some(entry.0 + "Id"@),
        PropertyView::ObjectRefs(_) => None,
    }
}

/// The text of the cell that holds a value: the JSON text of a literal or
/// of a list of literals, the identifier itself for a single reference.
/// `None` where JSON has no text for the value, and for a list of
/// references.
pub open spec fn cell_of(value: PropertyView) -> Option<Seq<char>> {
    match value {
        PropertyView::Scalar(scalar) => text_of_json(scalar_json(scalar)),
        PropertyView::Scalars(items) => text_of_json(array_json(items)),
        PropertyView::ObjectRef(target) => Some(target),
        PropertyView::ObjectRefs(_) => None,
    }
}

/// The JSON text of a literal; every literal has one.
pub fn scalar_to_cell_value(value: &ScalarValue) -> (r: Result<String, ToolError>)
    ensures
        r matches Ok(text) && text_of_json(scalar_json(value@)) == Some(text@),
{
    value.to_json().to_text()
}

/// The JSON text of a list of literals; every list has one.
pub fn scalars_to_cell_value(items: &Vec<ScalarValue>) -> (r: Result<String, ToolError>)
    ensures
        r matches Ok(text) && text_of_json(array_json(scalars(items@))) == Some(text@),
{
    let mut values: Vec<JsonValue> = Vec::new();
    let mut i: usize = 0;
    while i < items.len()
        invariant
            i <= items.len(),
            values.len() == i,
            forall|k: int| 0 <= k < i ==> (#[trigger] values@[k])@ == scalar_json(items@[k]@),
            forall|k: int| 0 <= k < i ==> crate::json::json_wf((#[trigger] values@[k])@),
        decreases items.len() - i,
    {
        values.push(items[i].to_json());
        i += 1;
    }
    let array = JsonValue::Array(values);
    proof {
        assert(items_view(values@) =~= scalars(items@).map_values(
            |item: ScalarView| scalar_json(item),
        ));
        assert forall|k: int| 0 <= k < items_view(values@).len() implies crate::json::json_wf(
            #[trigger] items_view(values@)[k],
        ) by {
            assert(items_view(values@)[k] == values@[k]@);
        }
        crate::json::lemma_wf_array(items_view(values@));
    }
    array.to_text()
}

/// The column and the cell of each property that has a column, in the
/// order of the properties.
pub open spec fn node_cells(properties: Seq<(Seq<char>, PropertyView)>) -> Seq<
    (Seq<char>, Seq<char>),
>
    decreases properties.len(),
{
    if properties.len() == 0 {
        seq![]
    } else {
        let rest = node_cells(properties.drop_last());
        let entry = properties.last();
        match (column_of(entry), cell_of(entry.1)) {
            (Some(column), Some(cell)) => rest.push((column, cell)),
            _ => rest,
        }
    }
}

/// Every property that has a column has a cell text.
pub open spec fn cells_defined(properties: Seq<(Seq<char>, PropertyView)>) -> bool {
    forall|i: int|
        0 <= i < properties.len() && column_of(#[trigger] properties[i]) is Some ==> cell_of(
            properties[i].1,
        ) is Some
}

/// The column and the cell of each property of `node` that has a column.
pub fn cells_for(node: &Node) -> (r: Result<Vec<(String, String)>, ToolError>)
    ensures
        r matches Ok(cells) && cells_defined(node@.properties) && pairs_view(cells@)
            == node_cells(node@.properties),
{
    let properties = node.properties();
    let ghost all = entries(properties@);
    let mut cells: Vec<(String, String)> = Vec::new();
    assert(pairs_view(cells@) =~= seq![]);
    let mut i: usize = 0;
    while i < properties.len()
        invariant
            i <= properties.len(),
            all == entries(properties@),
            all == node@.properties,
            cells_defined(all.take(i as int)),
            pairs_view(cells@) == node_cells(all.take(i as int)),
        decreases properties.len() - i,
    {
        proof {
            assert(all.take(i + 1).drop_last() =~= all.take(i as int));
            assert(all.take(i + 1).last() == all[i as int]);
            assert(all[i as int] == (properties@[i as int].0@, properties@[i as int].1@));
        }
        let predicate = &properties[i].0;
        let ghost before = pairs_view(cells@);
        let made: Result<Option<(String, String)>, ToolError> = match &properties[i].1 {
            PropertyValue::Scalar(scalar) => match scalar_to_cell_value(scalar) {
                Ok(text) => Ok(Some((predicate.clone(), text))),
                Err(e) => Err(e),
            },
            PropertyValue::ObjectRef(target) => Ok(
                Some((join(predicate.as_str(), "Id"), target.clone())),
            ),
            PropertyValue::Array(ArrayValue::Scalars(items)) => match scalars_to_cell_value(
                items,
            ) {
                Ok(text) => Ok(Some((predicate.clone(), text))),
                Err(e) => Err(e),
            },
            PropertyValue::Array(ArrayValue::ObjectRefs(_)) => Ok(None),
        };
        assert(match made {
            Ok(Some(pair)) => column_of(all[i as int]) == Some(pair.0@) && cell_of(all[i as int].1)
                == Some(pair.1@),
            Ok(None) => column_of(all[i as int]) is None,
            Err(e) => column_of(all[i as int]) is Some && cell_of(all[i as int].1) is None
                && e is Json,
        });
        match made {
            Ok(Some(pair)) => {
                cells.push(pair);
                assert(pairs_view(cells@) =~= before.push((pair.0@, pair.1@)));
            },
            Ok(None) => {},
            Err(e) => {
                assert(!cells_defined(all)) by {
                    assert(column_of(all[i as int]) is Some);
                }
                return Err(e);
            },
        }
        proof {
            assert forall|k: int|
                0 <= k < all.take(i + 1).len() && column_of(
                    #[trigger] all.take(i + 1)[k],
                ) is Some implies cell_of(all.take(i + 1)[k].1) is Some by {
                if k < i {
                    assert(all.take(i as int)[k] == all.take(i + 1)[k]);
                }
            }
        }
        i += 1;
    }
    proof {
        assert(all.take(properties@.len() as int) =~= all);
    }
    Ok(cells)
}

/// The text that the cells of a row hold for `column`: that of the last
/// cell for the column, or nothing.
pub open spec fn cell_at(cells: Seq<(Seq<char>, Seq<char>)>, column: Seq<char>) -> Seq<char>
    decreases cells.len(),
{
    if cells.len() == 0 {
        Seq::empty()
    } else if cells.last().0 == column {
        cells.last().1
    } else {
        cell_at(cells.drop_last(), column)
    }
}

/// The text that `cells` hold for `column`.
pub fn find_cell(cells: &Vec<(String, String)>, column: &str) -> (text: String)
    ensures
        text@ == cell_at(pairs_view(cells@), column@),
{
    let ghost all = pairs_view(cells@);
    let mut i: usize = cells.len();
    assert(all.take(cells@.len() as int) =~= all);
    while i > 0
        invariant
            i <= cells.len(),
            all == pairs_view(cells@),
            cell_at(all, column@) == cell_at(all.take(i as int), column@),
        decreases i,
    {
        proof {
            assert(all.take(i as int).drop_last() =~= all.take(i - 1));
            assert(all.take(i as int).last() == all[i - 1]);
        }
        i -= 1;
        if str_eq(cells[i].0.as_str(), column) {
            return cells[i].1.clone();
        }
    }
    proof {
        assert(all.take(cells@.len() as int) =~= all);
    }
    String::new()
}

/// The row of a type table for a node: its identifier, then for each
/// column the text that the node's cells hold for it.
pub open spec fn resolve_row(
    id: Seq<char>,
    cells: Seq<(Seq<char>, Seq<char>)>,
    columns: Seq<Seq<char>>,
) -> Row {
    seq![id] + columns.map_values(|column: Seq<char>| cell_at(cells, column))
}

/// A row that is still to be laid out: the node's identifier and cells.
pub struct RowData {
    pub id: String,
    pub values: Vec<(String, String)>,
}

/// The mathematical value of a [`TypeTableBuilder`].
pub struct TypeTableView {
    pub columns: Seq<Seq<char>>,
    pub rows: Seq<(Seq<char>, Seq<(Seq<char>, Seq<char>)>)>,
}

/// The rows of a type table, laid out against its columns, in the order
/// in which they came.
pub open spec fn laid_out(table: TypeTableView) -> Seq<Row> {
    table.rows.map_values(
        |row: (Seq<char>, Seq<(Seq<char>, Seq<char>)>)| resolve_row(row.0, row.1, table.columns),
    )
}

/// The table of one type while it is collected: the columns seen so far,
/// in rising order, and one row for each member.
pub struct TypeTableBuilder {
    columns: Vec<String>,
    rows: Vec<RowData>,
}

impl View for TypeTableBuilder {
    type V = TypeTableView;

    closed spec fn view(&self) -> TypeTableView {
        TypeTableView {
            columns: texts(self.columns@),
            rows: self.rows@.map_values(|row: RowData| (row.id@, pairs_view(row.values@))),
        }
    }
}

/// The columns with those of the given cells put in.
pub open spec fn with_columns(
    columns: Seq<Seq<char>>,
    cells: Seq<(Seq<char>, Seq<char>)>,
) -> Seq<Seq<char>>
    decreases cells.len(),
{
    if cells.len() == 0 {
        columns
    } else {
        insert_text(with_columns(columns, cells.drop_last()), cells.last().0)
    }
}

impl TypeTableBuilder {
    #[verifier::type_invariant]
    spec fn well_formed(&self) -> bool {
        strictly_sorted(texts(self.columns@))
    }

    /// A table without columns or rows.
    pub fn new() -> (builder: TypeTableBuilder)
        ensures
            builder@ == (TypeTableView { columns: seq![], rows: seq![] }),
    {
        let builder = TypeTableBuilder { columns: Vec::new(), rows: Vec::new() };
        assert(texts(builder.columns@) =~= seq![]);
        assert(builder.rows@.map_values(|row: RowData| (row.id@, pairs_view(row.values@)))
            =~= seq![]);
        builder
    }

    /// Adds the row of a member with the given identifier and cells, and
    /// the columns of those cells.
    pub fn add_row(&mut self, id: String, cells: Vec<(String, String)>)
        ensures
            final(self)@ == (TypeTableView {
                columns: with_columns(old(self)@.columns, pairs_view(cells@)),
                rows: old(self)@.rows.push((id@, pairs_view(cells@))),
            }),
    {
        proof {
            use_type_invariant(&*self);
        }
        let mut columns: Vec<String> = Vec::new();
        assert(texts(columns@) =~= seq![]);
        core::mem::swap(&mut self.columns, &mut columns);
        let ghost start = texts(columns@);
        let ghost all = pairs_view(cells@);
        let mut i: usize = 0;
        while i < cells.len()
            invariant
                i <= cells.len(),
                all == pairs_view(cells@),
                strictly_sorted(texts(columns@)),
                texts(columns@) == with_columns(start, all.take(i as int)),
            decreases cells.len() - i,
        {
            proof {
                assert(all.take(i + 1).drop_last() =~= all.take(i as int));
                assert(all.take(i + 1).last() == all[i as int]);
            }
            insert_sorted(&mut columns, cells[i].0.clone());
            i += 1;
        }
        proof {
            assert(all.take(cells@.len() as int) =~= all);
        }
        self.columns = columns;
        let ghost before = self.rows@.map_values(|row: RowData| (row.id@, pairs_view(row.values@)));
        let mut rows: Vec<RowData> = Vec::new();
        core::mem::swap(&mut self.rows, &mut rows);
        rows.push(RowData { id, values: cells });
        self.rows = rows;
        assert(self.rows@.map_values(|row: RowData| (row.id@, pairs_view(row.values@)))
            =~= before.push((id@, all)));
    }

    /// The finished table under the given sheet name: the column `id` and
    /// the columns seen, and the rows in rising order of their identifiers.
    pub fn into_table(self, sheet_name: String) -> (table: SheetTable)
        ensures
            table@ == (SheetView {
                sheet_name: sheet_name@,
                columns: seq!["id"@] + self@.columns,
                rows: sort(laid_out(self@), row_lt(1)),
            }),
    {
        let mut columns: Vec<String> = Vec::new();
        columns.push(copy("id"));
        let mut c: usize = 0;
        while c < self.columns.len()
            invariant
                c <= self.columns.len(),
                columns.len() == c + 1,
                columns@[0]@ == "id"@,
                forall|m: int| 0 <= m < c ==> (#[trigger] columns@[m + 1])@ == self.columns@[m]@,
            decreases self.columns.len() - c,
        {
            columns.push(self.columns[c].clone());
            c += 1;
        }
        proof {
            assert forall|m: int| 0 <= m < texts(columns@).len() implies texts(columns@)[m] == (
            seq!["id"@] + texts(self.columns@))[m] by {
                if m > 0 {
                    assert(columns@[(m - 1) + 1]@ == self.columns@[m - 1]@);
                }
            }
            assert(texts(columns@) =~= seq!["id"@] + texts(self.columns@));
        }
        let ghost target = laid_out(self@);
        let mut rows: Vec<Vec<String>> = Vec::new();
        let mut r: usize = 0;
        while r < self.rows.len()
            invariant
                r <= self.rows.len(),
                target == laid_out(self@),
                rows.len() == r,
                forall|k: int| 0 <= k < r ==> texts((#[trigger] rows@[k])@) == target[k],
            decreases self.rows.len() - r,
        {
            let row = &self.rows[r];
            let mut cells: Vec<String> = Vec::new();
            cells.push(row.id.clone());
            let mut k: usize = 0;
            while k < self.columns.len()
                invariant
                    k <= self.columns.len(),
                    cells.len() == k + 1,
                    cells@[0]@ == row.id@,
                    forall|m: int|
                        0 <= m < k ==> (#[trigger] cells@[m + 1])@ == cell_at(
                            pairs_view(row.values@),
                            self.columns@[m]@,
                        ),
                decreases self.columns.len() - k,
            {
                cells.push(find_cell(&row.values, self.columns[k].as_str()));
                k += 1;
            }
            proof {
                let wanted = resolve_row(
                    row.id@,
                    pairs_view(row.values@),
                    texts(self.columns@),
                );
                assert forall|m: int| 0 <= m < texts(cells@).len() implies texts(cells@)[m]
                    == wanted[m] by {
                    if m > 0 {
                        assert(cells@[(m - 1) + 1]@ == cell_at(
                            pairs_view(row.values@),
                            self.columns@[m - 1]@,
                        ));
                    }
                }
                assert(texts(cells@) =~= wanted);
                assert(target[r as int] == wanted);
            }
            rows.push(cells);
            r += 1;
        }
        proof {
            assert(rows_view(rows@) =~= target);
            assert forall|i: int| 0 <= i < target.len() implies (#[trigger] target[i]).len()
                >= 1 by {}
        }
        let sorted = sort_rows(rows, 1);
        SheetTable { sheet_name, columns, rows: sorted }
    }
}

/// The table of the type `class` as the nodes fill it: the columns of its
/// members' cells, and one row for each member, in the order of the nodes.
pub open spec fn type_builder(nodes: Seq<NodeView>, class: Seq<char>) -> TypeTableView
    decreases nodes.len(),
{
    if nodes.len() == 0 {
        TypeTableView { columns: seq![], rows: seq![] }
    } else {
        let rest = type_builder(nodes.drop_last(), class);
        let node = nodes.last();
        if node_types(node).contains(class) {
            TypeTableView {
                columns: with_columns(rest.columns, node_cells(node.properties)),
                rows: rest.rows.push((node.id, node_cells(node.properties))),
            }
        } else {
            rest
        }
    }
}

/// The table of the type `class` under the sheet name `name`.
pub open spec fn type_table(nodes: Seq<NodeView>, class: Seq<char>, name: Seq<char>) -> SheetView {
    SheetView {
        sheet_name: name,
        columns: seq!["id"@] + type_builder(nodes, class).columns,
        rows: sort(laid_out(type_builder(nodes, class)), row_lt(1)),
    }
}

/// The cells of each node are those that [`node_cells`] gives.
pub open spec fn cells_match(cells: Seq<Vec<(String, String)>>, nodes: Seq<NodeView>) -> bool {
    &&& cells.len() == nodes.len()
    &&& forall|i: int|
        0 <= i < nodes.len() ==> pairs_view((#[trigger] cells[i])@) == node_cells(
            nodes[i].properties,
        )
}

/// Collects the table of the type `class`.
fn build_type(nodes: &[Node], cells: &Vec<Vec<(String, String)>>, class: &str) -> (builder:
    TypeTableBuilder)
    requires
        cells_match(cells@, nodes_view(nodes@)),
    ensures
        builder@ == type_builder(nodes_view(nodes@), class@),
{
    let mut builder = TypeTableBuilder::new();
    let ghost views = nodes_view(nodes@);
    let mut i: usize = 0;
    while i < nodes.len()
        invariant
            i <= nodes.len(),
            views == nodes_view(nodes@),
            cells_match(cells@, views),
            builder@ == type_builder(views.take(i as int), class@),
        decreases nodes.len() - i,
    {
        proof {
            assert(views.take(i + 1).drop_last() =~= views.take(i as int));
            assert(views.take(i + 1).last() == nodes@[i as int]@);
            assert(views[i as int] == nodes@[i as int]@);
        }
        let node = &nodes[i];
        let types = types_of(node);
        if contains_text(&types, class) {
            builder.add_row(node.id().clone(), clone_pairs(&cells[i]));
        }
        i += 1;
    }
    proof {
        assert(views.take(nodes@.len() as int) =~= views);
    }
    builder
}

/// The keys of the child tables that a node asks for: its first type with
/// each predicate under which it holds a list of references.
pub open spec fn node_child_keys(
    class: Seq<char>,
    properties: Seq<(Seq<char>, PropertyView)>,
) -> Seq<Row>
    decreases properties.len(),
{
    if properties.len() == 0 {
        seq![]
    } else {
        let rest = node_child_keys(class, properties.drop_last());
        match properties.last().1 {
            PropertyView::ObjectRefs(_) => rest.push(seq![class, properties.last().0]),
            _ => rest,
        }
    }
}

/// `keys` with each of `more` put behind it that it does not hold yet.
pub open spec fn add_keys(keys: Seq<Row>, more: Seq<Row>) -> Seq<Row>
    decreases more.len(),
{
    if more.len() == 0 {
        keys
    } else {
        let rest = add_keys(keys, more.drop_last());
        if rest.contains(more.last()) {
            rest
        } else {
            rest.push(more.last())
        }
    }
}

/// The keys of all child tables, each once, in the order in which the
/// nodes ask for them.
pub open spec fn child_keys_found(nodes: Seq<NodeView>) -> Seq<Row>
    decreases nodes.len(),
{
    if nodes.len() == 0 {
        seq![]
    } else {
        add_keys(
            child_keys_found(nodes.drop_last()),
            node_child_keys(node_types(nodes.last())[0], nodes.last().properties),
        )
    }
}

/// The keys of all child tables, each once, in rising order of type and
/// predicate.
pub open spec fn child_keys(nodes: Seq<NodeView>) -> Seq<Row> {
    sort(child_keys_found(nodes), row_lt(2))
}

/// Every row is a pair.
pub open spec fn all_pairs(rows: Seq<Row>) -> bool {
    forall|i: int| 0 <= i < rows.len() ==> (#[trigger] rows[i]).len() == 2
}

/// Whether `keys` holds the pair `(first, second)`.
fn has_pair(keys: &Vec<Vec<String>>, first: &str, second: &str) -> (r: bool)
    requires
        all_pairs(rows_view(keys@)),
    ensures
        r == rows_view(keys@).contains(seq![first@, second@]),
{
    let ghost all = rows_view(keys@);
    let ghost key = seq![first@, second@];
    let mut i: usize = 0;
    while i < keys.len()
        invariant
            i <= keys.len(),
            all == rows_view(keys@),
            all_pairs(all),
            key == seq![first@, second@],
            forall|k: int| 0 <= k < i ==> #[trigger] all[k] != key,
        decreases keys.len() - i,
    {
        assert(all[i as int].len() == 2);
        let same = str_eq(keys[i][0].as_str(), first) && str_eq(keys[i][1].as_str(), second);
        if same {
            assert(all[i as int] =~= key);
            return true;
        }
        assert(all[i as int] != key) by {
            if all[i as int] == key {
                assert(all[i as int][0] == key[0]);
                assert(all[i as int][1] == key[1]);
            }
        }
        i += 1;
    }
    false
}

/// The keys of all child tables, each once, in the order in which the
/// nodes ask for them.
fn collect_child_keys(nodes: &[Node]) -> (keys: Vec<Vec<String>>)
    ensures
        rows_view(keys@) == child_keys_found(nodes_view(nodes@)),
        all_pairs(rows_view(keys@)),
{
    let mut keys: Vec<Vec<String>> = Vec::new();
    let ghost views = nodes_view(nodes@);
    assert(rows_view(keys@) =~= seq![]);
    let mut i: usize = 0;
    while i < nodes.len()
        invariant
            i <= nodes.len(),
            views == nodes_view(nodes@),
            rows_view(keys@) == child_keys_found(views.take(i as int)),
            all_pairs(rows_view(keys@)),
        decreases nodes.len() - i,
    {
        proof {
            assert(views.take(i + 1).drop_last() =~= views.take(i as int));
            assert(views.take(i + 1).last() == nodes@[i as int]@);
        }
        let node = &nodes[i];
        let types = types_of(node);
        let class = &types[0];
        let properties = node.properties();
        let ghost all = entries(properties@);
        let ghost start = rows_view(keys@);
        let mut j: usize = 0;
        while j < properties.len()
            invariant
                j <= properties.len(),
                all == entries(properties@),
                class@ == node_types(node@)[0],
                rows_view(keys@) == add_keys(start, node_child_keys(class@, all.take(j as int))),
                all_pairs(rows_view(keys@)),
            decreases properties.len() - j,
        {
            proof {
                assert(all.take(j + 1).drop_last() =~= all.take(j as int));
                assert(all.take(j + 1).last() == all[j as int]);
                assert(all[j as int] == (properties@[j as int].0@, properties@[j as int].1@));
            }
            match &properties[j].1 {
                PropertyValue::Array(ArrayValue::ObjectRefs(_)) => {
                    let predicate = &properties[j].0;
                    proof {
                        let rest = node_child_keys(class@, all.take(j as int));
                        let wanted = seq![class@, predicate@];
                        assert(node_child_keys(class@, all.take(j + 1)) == rest.push(wanted));
                        assert(rest.push(wanted).drop_last() =~= rest);
                        assert(rest.push(wanted).last() == wanted);
                    }
                    if !has_pair(&keys, class.as_str(), predicate.as_str()) {
                        let mut key: Vec<String> = Vec::new();
                        key.push(class.clone());
                        key.push(predicate.clone());
                        let ghost before = rows_view(keys@);
                        keys.push(key);
                        proof {
                            assert(texts(key@) =~= seq![class@, predicate@]);
                            assert(rows_view(keys@) =~= before.push(texts(key@)));
                            assert forall|k: int| 0 <= k < rows_view(keys@).len() implies (
                            #[trigger] rows_view(keys@)[k]).len() == 2 by {
                                if k < before.len() {
                                    assert(rows_view(keys@)[k] == before[k]);
                                }
                            }
                        }
                    }
                },
                _ => {},
            }
            j += 1;
        }
        proof {
            assert(all.take(properties@.len() as int) =~= all);
        }
        i += 1;
    }
    proof {
        assert(views.take(nodes@.len() as int) =~= views);
    }
    keys
}

/// The edges that a node gives to the child table of `class` and
/// `predicate`: one row `(id, target)` for each reference that it holds
/// under the predicate, if `class` is its first type.
pub open spec fn node_edges(node: NodeView, class: Seq<char>, predicate: Seq<char>) -> Seq<Row> {
    if node_types(node)[0] == class {
        match node.get(predicate) {
            Some(PropertyView::ObjectRefs(targets)) => targets.map_values(
                |target: Seq<char>| seq![node.id, target],
            ),
            _ => seq![],
        }
    } else {
        seq![]
    }
}

/// The edges of the child table of `class` and `predicate`, node by node.
pub open spec fn edges(nodes: Seq<NodeView>, class: Seq<char>, predicate: Seq<char>) -> Seq<Row>
    decreases nodes.len(),
{
    if nodes.len() == 0 {
        seq![]
    } else {
        edges(nodes.drop_last(), class, predicate) + node_edges(nodes.last(), class, predicate)
    }
}

/// The child table of `class` and `predicate` under the sheet name `name`:
/// one row for each edge, node by node, and for each node in the order in
/// which it holds its references.
pub open spec fn child_table(
    nodes: Seq<NodeView>,
    class: Seq<char>,
    predicate: Seq<char>,
    name: Seq<char>,
) -> SheetView {
    SheetView {
        sheet_name: name,
        columns: seq!["ParentId"@, predicate + "Id"@],
        rows: edges(nodes, class, predicate),
    }
}

/// The table of one multi-valued reference while it is collected.
pub struct ChildTableBuilder {
    pub predicate: String,
    pub rows: Vec<Vec<String>>,
}

impl ChildTableBuilder {
    /// A table for `predicate` without rows.
    pub fn new(predicate: String) -> (builder: ChildTableBuilder)
        ensures
            builder.predicate@ == predicate@,
            rows_view(builder.rows@) == Seq::<Row>::empty(),
    {
        let builder = ChildTableBuilder { predicate, rows: Vec::new() };
        assert(rows_view(builder.rows@) =~= Seq::<Row>::empty());
        builder
    }

    /// Adds the edge from `parent` to `target`.
    pub fn add_edge(&mut self, parent: String, target: String)
        ensures
            final(self).predicate@ == old(self).predicate@,
            rows_view(final(self).rows@) == rows_view(old(self).rows@).push(
                seq![parent@, target@],
            ),
    {
        let mut row: Vec<String> = Vec::new();
        row.push(parent);
        row.push(target);
        let ghost before = rows_view(self.rows@);
        self.rows.push(row);
        assert(texts(row@) =~= seq![parent@, target@]);
        assert(rows_view(self.rows@) =~= before.push(texts(row@)));
    }

    /// The finished table under the given sheet name, with its rows in
    /// the order in which the edges were added.
    pub fn into_table(self, sheet_name: String) -> (table: SheetTable)
        ensures
            table@ == (SheetView {
                sheet_name: sheet_name@,
                columns: seq!["ParentId"@, self.predicate@ + "Id"@],
                rows: rows_view(self.rows@),
            }),
    {
        let mut columns: Vec<String> = Vec::new();
        columns.push(copy("ParentId"));
        columns.push(join(self.predicate.as_str(), "Id"));
        assert(texts(columns@) =~= seq!["ParentId"@, self.predicate@ + "Id"@]);
        SheetTable { sheet_name, columns, rows: self.rows }
    }
}

/// Collects the child table of `class` and `predicate`.
fn build_child(nodes: &[Node], class: &str, predicate: &str) -> (builder: ChildTableBuilder)
    ensures
        builder.predicate@ == predicate@,
        rows_view(builder.rows@) == edges(nodes_view(nodes@), class@, predicate@),
{
    let mut builder = ChildTableBuilder::new(copy(predicate));
    let ghost views = nodes_view(nodes@);
    let mut i: usize = 0;
    while i < nodes.len()
        invariant
            i <= nodes.len(),
            views == nodes_view(nodes@),
            builder.predicate@ == predicate@,
            rows_view(builder.rows@) == edges(views.take(i as int), class@, predicate@),
        decreases nodes.len() - i,
    {
        proof {
            assert(views.take(i + 1).drop_last() =~= views.take(i as int));
            assert(views.take(i + 1).last() == nodes@[i as int]@);
        }
        let node = &nodes[i];
        let types = types_of(node);
        let ghost before = rows_view(builder.rows@);
        let ghost own = node_edges(node@, class@, predicate@);
        if str_eq(types[0].as_str(), class) {
            match node.get(predicate) {
                Some(PropertyValue::Array(ArrayValue::ObjectRefs(targets))) => {
                    let mut j: usize = 0;
                    while j < targets.len()
                        invariant
                            j <= targets.len(),
                            builder.predicate@ == predicate@,
                            own == texts(targets@).map_values(
                                |target: Seq<char>| seq![node@.id, target],
                            ),
                            rows_view(builder.rows@) == before + own.take(j as int),
                        decreases targets.len() - j,
                    {
                        builder.add_edge(node.id().clone(), targets[j].clone());
                        proof {
                            assert(own.take(j + 1) =~= own.take(j as int).push(own[j as int]));
                            assert(rows_view(builder.rows@) =~= before + own.take(j + 1));
                        }
                        j += 1;
                    }
                    proof {
                        assert(own.take(targets@.len() as int) =~= own);
                    }
                },
                _ => {
                    assert(before + own =~= before);
                },
            }
        } else {
            assert(before + own =~= before);
        }
        i += 1;
    }
    proof {
        assert(views.take(nodes@.len() as int) =~= views);
    }
    builder
}

/// The views of a list of tables.
pub open spec fn tables_view(tables: Seq<SheetTable>) -> Seq<SheetView> {
    tables.map_values(|table: SheetTable| table@)
}

/// The order of tables: that of their sheet names.
pub open spec fn table_lt() -> spec_fn(SheetView, SheetView) -> bool {
    |a: SheetView, b: SheetView| text_lt(a.sheet_name, b.sheet_name)
}

/// Puts `table` into the ordered tables `sorted`, behind the tables whose
/// names do not stand after its name.
fn place_table(sorted: &mut Vec<SheetTable>, table: SheetTable)
    ensures
        tables_view(final(sorted)@) == place(tables_view(old(sorted)@), table@, table_lt()),
{
    let ghost before = tables_view(sorted@);
    let ghost lt = table_lt();
    let mut at: usize = 0;
    while at < sorted.len() && !str_lt(table.sheet_name.as_str(), sorted[at].sheet_name.as_str())
        invariant
            at <= sorted.len(),
            before == tables_view(sorted@),
            lt == table_lt(),
            forall|k: int| 0 <= k < at ==> !lt(table@, #[trigger] before[k]),
        decreases sorted.len() - at,
    {
        at += 1;
    }
    proof {
        lemma_upper_is(before, table@, lt, at as int);
    }
    sorted.insert(at, table);
    proof {
        assert(tables_view(sorted@) =~= before.insert(at as int, table@));
    }
}

/// The tables in rising order of their sheet names.
pub fn sort_tables(tables: Vec<SheetTable>) -> (sorted: Vec<SheetTable>)
    ensures
        tables_view(sorted@) == sort(tables_view(tables@), table_lt()),
{
    let mut sorted: Vec<SheetTable> = Vec::new();
    let mut rest = tables;
    let ghost whole = tables_view(rest@);
    let ghost lt = table_lt();
    let ghost mut done: int = 0;
    assert(whole.len() == rest@.len());
    assert(tables_view(sorted@) =~= sort(whole.take(0), lt));
    assert(whole.skip(0) =~= whole);
    while rest.len() > 0
        invariant
            0 <= done <= whole.len(),
            rest@.len() == whole.len() - done,
            lt == table_lt(),
            tables_view(rest@) == whole.skip(done),
            tables_view(sorted@) == sort(whole.take(done), lt),
        decreases rest.len(),
    {
        let ghost before = tables_view(rest@);
        let ghost held = rest@;
        let table = rest.remove(0);
        proof {
            assert(before.len() == held.len());
            assert(table@ == before[0]);
            assert forall|k: int| 0 <= k < rest@.len() implies tables_view(rest@)[k]
                == whole.skip(done + 1)[k] by {
                assert(rest@[k] == held[k + 1]);
                assert(before[k + 1] == held[k + 1]@);
            }
            assert(before[0] == whole[done]);
            assert(tables_view(rest@) =~= whole.skip(done + 1));
            assert(whole.take(done + 1).drop_last() =~= whole.take(done));
            assert(whole.take(done + 1).last() == whole[done]);
        }
        place_table(&mut sorted, table);
        proof {
            done = done + 1;
        }
    }
    proof {
        assert(whole.take(done) =~= whole);
    }
    sorted
}

/// The name from which the sheet of a child table is named: type and
/// predicate with two underscores between them.
pub open spec fn child_raw(key: Row) -> Seq<char> {
    key[0] + "__"@ + key[1]
}

/// The names from which the generated sheets are named: the types, then
/// the names of the child tables.
pub open spec fn raws_of(types: Seq<Seq<char>>, keys: Seq<Row>) -> Seq<Seq<char>> {
    types + keys.map_values(|key: Row| child_raw(key))
}

/// The sheet names given to `raws` one after the other, where the names in
/// `used` are taken to begin with.
pub open spec fn assign_all(used: Seq<Seq<char>>, raws: Seq<Seq<char>>) -> Seq<Seq<char>>
    decreases raws.len(),
{
    if raws.len() == 0 {
        seq![]
    } else {
        let names = assign_all(used, raws.drop_last());
        names.push(assigned(insert_all(used, names), raws.last()))
    }
}

/// The names that are taken before any sheet is generated.
pub open spec fn reserved() -> Seq<Seq<char>> {
    insert_text(insert_text(seq![], ENTITIES_SHEET@), METADATA_SHEET@)
}

/// The sheet names of the generated tables: those of the type tables in
/// rising order of the types, then those of the child tables in rising
/// order of their keys.
pub open spec fn sheet_names(nodes: Seq<NodeView>) -> Seq<Seq<char>> {
    assign_all(reserved(), raws_of(all_types(nodes), child_keys(nodes)))
}

/// The generated tables, before they are put in order: the type tables,
/// then the child tables.
pub open spec fn generated(nodes: Seq<NodeView>) -> Seq<SheetView> {
    let types = all_types(nodes);
    let keys = child_keys(nodes);
    let names = sheet_names(nodes);
    Seq::new(
        types.len() + keys.len(),
        |i: int|
            if i < types.len() {
                type_table(nodes, types[i], names[i])
            } else {
                child_table(nodes, keys[i - types.len()][0], keys[i - types.len()][1], names[i])
            },
    )
}

/// The rows of the metadata table: for each generated table its kind, its
/// sheet name, its type and, for a child table, its predicate.
pub open spec fn metadata_rows(nodes: Seq<NodeView>) -> Seq<Row> {
    let types = all_types(nodes);
    let keys = child_keys(nodes);
    let names = sheet_names(nodes);
    Seq::new(
        types.len() + keys.len(),
        |i: int|
            if i < types.len() {
                seq!["type"@, names[i], types[i], Seq::<char>::empty()]
            } else {
                seq!["child"@, names[i], keys[i - types.len()][0], keys[i - types.len()][1]]
            },
    )
}

/// The table of type memberships: one row `(id, type)` for each type under
/// which each node is listed, in rising order.
pub open spec fn entities_table(nodes: Seq<NodeView>) -> SheetView {
    SheetView {
        sheet_name: ENTITIES_SHEET@,
        columns: seq!["id"@, "type"@],
        rows: sort(memberships(nodes), row_lt(2)),
    }
}

/// The table that records what each generated sheet stands for.
pub open spec fn metadata_table(nodes: Seq<NodeView>) -> SheetView {
    SheetView {
        sheet_name: METADATA_SHEET@,
        columns: seq!["kind"@, "sheet"@, "type"@, "predicate"@],
        rows: metadata_rows(nodes),
    }
}

/// Whether every value of every node has a cell text.
pub open spec fn flatten_defined(nodes: Seq<NodeView>) -> bool {
    forall|i: int| 0 <= i < nodes.len() ==> cells_defined((#[trigger] nodes[i]).properties)
}

/// The workbook for `nodes`: the table of memberships, the metadata table,
/// and the generated tables in rising order of their sheet names.
pub open spec fn flattened(nodes: Seq<NodeView>) -> Seq<SheetView> {
    seq![entities_table(nodes), metadata_table(nodes)] + sort(generated(nodes), table_lt())
}

/// The table of type memberships with the given rows.
pub fn build_entities_table(entries: Vec<Vec<String>>) -> (table: SheetTable)
    ensures
        table@ == (SheetView {
            sheet_name: ENTITIES_SHEET@,
            columns: seq!["id"@, "type"@],
            rows: rows_view(entries@),
        }),
{
    let mut columns: Vec<String> = Vec::new();
    columns.push(copy("id"));
    columns.push(copy("type"));
    assert(texts(columns@) =~= seq!["id"@, "type"@]);
    SheetTable { sheet_name: copy(ENTITIES_SHEET), columns, rows: entries }
}

/// The cells of every node.
fn collect_cells(nodes: &[Node]) -> (r: Result<Vec<Vec<(String, String)>>, ToolError>)
    ensures
        match r {
            Ok(cells) => flatten_defined(nodes_view(nodes@)) && cells_match(
                cells@,
                nodes_view(nodes@),
            ),
            Err(e) => !flatten_defined(nodes_view(nodes@)) && e is Json,
        },
        r is Ok,
{
    let ghost views = nodes_view(nodes@);
    let mut cells: Vec<Vec<(String, String)>> = Vec::new();
    let mut i: usize = 0;
    while i < nodes.len()
        invariant
            i <= nodes.len(),
            views == nodes_view(nodes@),
            cells.len() == i,
            forall|k: int| 0 <= k < i ==> cells_defined((#[trigger] views[k]).properties),
            forall|k: int|
                0 <= k < i ==> pairs_view((#[trigger] cells@[k])@) == node_cells(
                    views[k].properties,
                ),
        decreases nodes.len() - i,
    {
        assert(views[i as int] == nodes@[i as int]@);
        match cells_for(&nodes[i]) {
            Ok(own) => {
                cells.push(own);
            },
            Err(e) => {
                return Err(e);
            },
        }
        i += 1;
    }
    Ok(cells)
}

/// The names from which the generated sheets are named.
fn raw_names(types: &Vec<String>, keys: &Vec<Vec<String>>) -> (raws: Vec<String>)
    requires
        wide(rows_view(keys@), 2),
    ensures
        texts(raws@) == raws_of(texts(types@), rows_view(keys@)),
{
    let mut raws = clone_strings(types);
    let ghost wanted = raws_of(texts(types@), rows_view(keys@));
    let mut i: usize = 0;
    assert(texts(raws@).len() == types@.len());
    while i < keys.len()
        invariant
            i <= keys.len(),
            wide(rows_view(keys@), 2),
            wanted == raws_of(texts(types@), rows_view(keys@)),
            raws.len() == types.len() + i,
            forall|k: int| 0 <= k < raws.len() ==> (#[trigger] raws@[k])@ == wanted[k],
        decreases keys.len() - i,
    {
        assert(rows_view(keys@)[i as int].len() >= 2);
        let head = join(keys[i][0].as_str(), "__");
        let raw = join(head.as_str(), keys[i][1].as_str());
        proof {
            assert(raw@ == child_raw(rows_view(keys@)[i as int]));
        }
        raws.push(raw);
        i += 1;
    }
    assert(texts(raws@) =~= wanted);
    raws
}

/// The row of the metadata table for a generated sheet.
fn metadata_row(kind: &str, name: &String, class: &String, predicate: &str) -> (row: Vec<String>)
    ensures
        texts(row@) == seq![kind@, name@, class@, predicate@],
{
    let mut row: Vec<String> = Vec::new();
    row.push(copy(kind));
    row.push(name.clone());
    row.push(class.clone());
    row.push(copy(predicate));
    assert(texts(row@) =~= seq![kind@, name@, class@, predicate@]);
    row
}

/// Flattens nodes into the tables of a workbook. The call succeeds on
/// every list of nodes: each literal has a JSON text.
pub fn build_workbook(nodes: &[Node]) -> (r: Result<WorkbookData, ToolError>)
    ensures
        r matches Ok(workbook) && flatten_defined(nodes_view(nodes@)) && workbook@ == flattened(
            nodes_view(nodes@),
        ),
{
    let ghost views = nodes_view(nodes@);
    let cells = match collect_cells(nodes) {
        Ok(cells) => cells,
        Err(e) => {
            return Err(e);
        },
    };
    let types = collect_types(nodes);
    let found = collect_child_keys(nodes);
    proof {
        assert forall|i: int| 0 <= i < rows_view(found@).len() implies (
        #[trigger] rows_view(found@)[i]).len() >= 2 by {}
    }
    let keys = sort_rows(found, 2);
    proof {
        crate::rows::lemma_sort_wide(rows_view(found@), 2, 2);
    }
    let raws = raw_names(&types, &keys);
    let mut registry = SheetNameRegistry::new();
    registry.claim(copy(ENTITIES_SHEET));
    registry.claim(copy(METADATA_SHEET));
    let mut tables: Vec<SheetTable> = Vec::new();
    let mut records: Vec<Vec<String>> = Vec::new();
    let ghost all_raws = texts(raws@);
    let ghost mut names: Seq<Seq<char>> = seq![];
    let total = raws.len();
    proof {
        assert(all_raws.len() == raws@.len());
        assert(texts(types@).len() == types@.len());
        assert(rows_view(keys@).len() == keys@.len());
        assert(all_raws.take(0) =~= seq![]);
    }
    let mut i: usize = 0;
    while i < total
        invariant
            i <= total,
            total == raws.len(),
            total == types.len() + keys.len(),
            views == nodes_view(nodes@),
            cells_match(cells@, views),
            texts(types@) == all_types(views),
            rows_view(keys@) == child_keys(views),
            wide(rows_view(keys@), 2),
            all_raws == texts(raws@),
            all_raws == raws_of(all_types(views), child_keys(views)),
            names == assign_all(reserved(), all_raws.take(i as int)),
            names.len() == i,
            registry@ == insert_all(reserved(), names),
            tables.len() == i,
            records.len() == i,
            forall|k: int|
                0 <= k < i ==> (#[trigger] tables@[k])@ == (if k < types.len() {
                    type_table(views, texts(types@)[k], names[k])
                } else {
                    child_table(
                        views,
                        rows_view(keys@)[k - types.len()][0],
                        rows_view(keys@)[k - types.len()][1],
                        names[k],
                    )
                }),
            forall|k: int|
                0 <= k < i ==> texts((#[trigger] records@[k])@) == (if k < types.len() {
                    seq!["type"@, names[k], texts(types@)[k], Seq::<char>::empty()]
                } else {
                    seq![
                        "child"@,
                        names[k],
                        rows_view(keys@)[k - types.len()][0],
                        rows_view(keys@)[k - types.len()][1],
                    ]
                }),
        decreases total - i,
    {
        proof {
            assert(all_raws.take(i + 1).drop_last() =~= all_raws.take(i as int));
            assert(all_raws.take(i + 1).last() == raws@[i as int]@);
        }
        let ghost before = names;
        let name = registry.assign(raws[i].as_str());
        proof {
            names = names.push(name@);
            assert(names.drop_last() =~= before);
        }
        if i < types.len() {
            let builder = build_type(nodes, &cells, types[i].as_str());
            records.push(metadata_row("type", &name, &types[i], ""));
            tables.push(builder.into_table(name));
            proof {
                reveal_strlit("");
                assert(""@ =~= Seq::<char>::empty());
            }
        } else {
            let key = &keys[i - types.len()];
            assert(rows_view(keys@)[i - types.len()].len() >= 2);
            let builder = build_child(nodes, key[0].as_str(), key[1].as_str());
            records.push(metadata_row("child", &name, &key[0], key[1].as_str()));
            tables.push(builder.into_table(name));
        }
        i += 1;
    }
    proof {
        assert(all_raws.take(total as int) =~= all_raws);
        assert(names == sheet_names(views));
        assert(tables_view(tables@) =~= generated(views));
        assert(rows_view(records@) =~= metadata_rows(views));
    }
    let sorted = sort_tables(tables);
    let entities = build_entities_table(sort_rows(collect_memberships(nodes), 2));
    let mut columns: Vec<String> = Vec::new();
    columns.push(copy("kind"));
    columns.push(copy("sheet"));
    columns.push(copy("type"));
    columns.push(copy("predicate"));
    assert(texts(columns@) =~= seq!["kind"@, "sheet"@, "type"@, "predicate"@]);
    let metadata = SheetTable { sheet_name: copy(METADATA_SHEET), columns, rows: records };
    let mut all: Vec<SheetTable> = Vec::new();
    all.push(entities);
    all.push(metadata);
    let mut rest = sorted;
    let ghost tail = tables_view(rest@);
    all.append(&mut rest);
    let workbook = WorkbookData { tables: all };
    proof {
        assert(workbook@ =~= seq![entities@, metadata@] + tail);
    }
    Ok(workbook)
}

/// The sheet name made from any text is a sheet name.
pub proof fn lemma_sanitized_is_sheet_name(raw: Seq<char>)
    ensures
        is_sheet_name(sanitized(raw)),
{
    reveal_strlit("Sheet");
    let clean = cleaned(raw);
    lemma_trimmed_within(clean);
    let kept = trimmed(clean);
    let named = if kept.len() == 0 { "Sheet"@ } else { kept };
    let name = sanitized(raw);
    assert forall|i: int| 0 <= i < name.len() implies !is_forbidden(#[trigger] name[i]) by {
        assert(name[i] == named[i]);
        if kept.len() > 0 {
            let (a, b) = choose|a: int, b: int|
                0 <= a <= b <= clean.len() && trimmed(clean) == clean.subrange(a, b);
            assert(kept[i] == clean[a + i]);
        }
    }
}

/// What a sorted sequence holds once a text is put in: what it held, and
/// the text.
pub proof fn lemma_insert_text_holds(s: Seq<Seq<char>>, x: Seq<char>, y: Seq<char>)
    ensures
        insert_text(s, x).contains(y) <==> s.contains(y) || y == x,
        s.len() <= insert_text(s, x).len() <= s.len() + 1,
{
    crate::text::lemma_rank(s, x);
    let at = crate::text::rank(s, x);
    let put = insert_text(s, x);
    if at < s.len() && s[at] == x {
        assert(s.contains(x));
    } else {
        assert(put == s.insert(at, x));
        if put.contains(y) {
            let i = choose|i: int| 0 <= i < put.len() && put[i] == y;
            if i < at {
                assert(s[i] == y);
            } else if i > at {
                assert(s[i - 1] == y);
            }
        }
        if s.contains(y) {
            let i = choose|i: int| 0 <= i < s.len() && s[i] == y;
            if i < at {
                assert(put[i] == y);
            } else {
                assert(put[i + 1] == y);
            }
        }
        assert(put[at] == x);
    }
}

/// What a sorted sequence holds once texts are put in, one after the
/// other: what it held, and the texts; and it is still sorted.
pub proof fn lemma_insert_all(used: Seq<Seq<char>>, items: Seq<Seq<char>>)
    requires
        strictly_sorted(used),
    ensures
        strictly_sorted(insert_all(used, items)),
        forall|y: Seq<char>|
            insert_all(used, items).contains(y) <==> used.contains(y) || items.contains(y),
        insert_all(used, items).len() <= used.len() + items.len(),
    decreases items.len(),
{
    if items.len() > 0 {
        let rest = items.drop_last();
        lemma_insert_all(used, rest);
        let before = insert_all(used, rest);
        crate::model::lemma_insert_text_sorted(before, items.last());
        assert forall|y: Seq<char>|
            insert_all(used, items).contains(y) <==> used.contains(y) || items.contains(
                y,
            ) by {
            lemma_insert_text_holds(before, items.last(), y);
            if items.contains(y) {
                let i = choose|i: int| 0 <= i < items.len() && items[i] == y;
                if i < rest.len() {
                    assert(rest[i] == y);
                }
            }
            if rest.contains(y) {
                let i = choose|i: int| 0 <= i < rest.len() && rest[i] == y;
                assert(items[i] == y);
            }
            assert(items[items.len() - 1] == items.last());
        }
        lemma_insert_text_holds(before, items.last(), items.last());
    }
}

/// The names given to texts one after the other are sheet names, none of
/// them was in use, and no two of them are the same, as long as there are
/// fewer names in all than a machine can count.
pub proof fn lemma_assign_all(used: Seq<Seq<char>>, raws: Seq<Seq<char>>)
    requires
        strictly_sorted(used),
        used.len() + raws.len() < 0x1_0000_0000_0000_0000,
    ensures
        assign_all(used, raws).len() == raws.len(),
        forall|i: int|
            0 <= i < raws.len() ==> is_sheet_name(#[trigger] assign_all(used, raws)[i])
                && !used.contains(assign_all(used, raws)[i]),
        forall|i: int, j: int|
            0 <= i < j < raws.len() ==> #[trigger] assign_all(used, raws)[i]
                != #[trigger] assign_all(used, raws)[j],
    decreases raws.len(),
{
    if raws.len() > 0 {
        let rest = raws.drop_last();
        lemma_assign_all(used, rest);
        let before = assign_all(used, rest);
        let taken = insert_all(used, before);
        lemma_insert_all(used, before);
        lemma_sorted_no_duplicates(taken);
        lemma_sanitized_is_sheet_name(raws.last());
        lemma_assigned(taken, raws.last());
        let name = assigned(taken, raws.last());
        let names = assign_all(used, raws);
        assert(names == before.push(name));
        assert forall|i: int| 0 <= i < raws.len() implies is_sheet_name(#[trigger] names[i])
            && !used.contains(names[i]) by {
            if i < rest.len() {
                assert(names[i] == before[i]);
            }
        }
        assert forall|i: int, j: int| 0 <= i < j < raws.len() implies #[trigger] names[i]
            != #[trigger] names[j] by {
            assert(names[i] == before[i]);
            if j < rest.len() {
                assert(names[j] == before[j]);
            } else {
                assert(before.contains(before[i]));
            }
        }
    }
}

/// In the workbook for any nodes, every generated sheet has a name of at
/// most 31 characters without forbidden characters, and no two sheets have
/// the same name, whatever the types and predicates are called. This
/// holds as long as there are fewer sheets than a machine can count.
pub proof fn sheet_names_are_distinct(nodes: Seq<NodeView>)
    requires
        all_types(nodes).len() + child_keys(nodes).len() + 2 < 0x1_0000_0000_0000_0000,
    ensures
        forall|i: int|
            2 <= i < flattened(nodes).len() ==> is_sheet_name(
                (#[trigger] flattened(nodes)[i]).sheet_name,
            ),
        forall|i: int, j: int|
            0 <= i < j < flattened(nodes).len() ==> (#[trigger] flattened(nodes)[i]).sheet_name
                != (#[trigger] flattened(nodes)[j]).sheet_name,
{
    let types = all_types(nodes);
    let keys = child_keys(nodes);
    let raws = raws_of(types, keys);
    let names = sheet_names(nodes);
    let made = generated(nodes);
    let sorted = sort(made, table_lt());
    let whole = flattened(nodes);
    reveal_strlit("Entities");
    reveal_strlit("Metadata");
    assert(ENTITIES_SHEET@ != METADATA_SHEET@) by {
        assert(ENTITIES_SHEET@[0] == 'E');
        assert(METADATA_SHEET@[0] == 'M');
    }
    let empty = Seq::<Seq<char>>::empty();
    crate::model::lemma_insert_text_sorted(empty, ENTITIES_SHEET@);
    crate::model::lemma_insert_text_sorted(insert_text(empty, ENTITIES_SHEET@), METADATA_SHEET@);
    lemma_insert_text_holds(empty, ENTITIES_SHEET@, ENTITIES_SHEET@);
    lemma_insert_text_holds(insert_text(empty, ENTITIES_SHEET@), METADATA_SHEET@, ENTITIES_SHEET@);
    lemma_insert_text_holds(insert_text(empty, ENTITIES_SHEET@), METADATA_SHEET@, METADATA_SHEET@);
    lemma_insert_text_holds(empty, ENTITIES_SHEET@, METADATA_SHEET@);
    assert(reserved().len() <= 2);
    assert(raws.len() == types.len() + keys.len());
    lemma_assign_all(reserved(), raws);
    assert(made.len() == names.len());
    assert forall|i: int| 0 <= i < made.len() implies (#[trigger] made[i]).sheet_name
        == names[i] by {}
    assert(made.no_duplicates()) by {
        assert forall|i: int, j: int| 0 <= i < made.len() && 0 <= j < made.len() && i
            != j implies made[i] != made[j] by {
            if i < j {
                assert(names[i] != names[j]);
            } else {
                assert(names[j] != names[i]);
            }
        }
    }
    lemma_table_lt_weak();
    crate::order::lemma_sort(made, table_lt());
    made.lemma_multiset_has_no_duplicates();
    sorted.lemma_multiset_has_no_duplicates_conv();
    assert forall|k: int| 0 <= k < sorted.len() implies exists|i: int|
        0 <= i < made.len() && made[i] == #[trigger] sorted[k] by {
        sorted.to_multiset_ensures();
        made.to_multiset_ensures();
        assert(sorted.contains(sorted[k]));
        assert(made.to_multiset().count(sorted[k]) > 0);
        assert(made.contains(sorted[k]));
    }
    assert forall|i: int| 2 <= i < whole.len() implies is_sheet_name(
        (#[trigger] whole[i]).sheet_name,
    ) by {
        assert(whole[i] == sorted[i - 2]);
        let a = choose|a: int| 0 <= a < made.len() && made[a] == sorted[i - 2];
        assert(made[a].sheet_name == names[a]);
    }
    assert forall|i: int, j: int| 0 <= i < j < whole.len() implies (
    #[trigger] whole[i]).sheet_name != (#[trigger] whole[j]).sheet_name by {
        if j >= 2 {
            assert(whole[j] == sorted[j - 2]);
            let b = choose|b: int| 0 <= b < made.len() && made[b] == sorted[j - 2];
            assert(made[b].sheet_name == names[b]);
            assert(!reserved().contains(names[b]));
            if i >= 2 {
                assert(whole[i] == sorted[i - 2]);
                let a = choose|a: int| 0 <= a < made.len() && made[a] == sorted[i - 2];
                assert(made[a].sheet_name == names[a]);
                assert(sorted[i - 2] != sorted[j - 2]);
                if a < b {
                    assert(names[a] != names[b]);
                } else if b < a {
                    assert(names[b] != names[a]);
                }
            }
        }
    }
}

/// The order of tables by their names is a strict weak order.
pub proof fn lemma_table_lt_weak()
    ensures
        crate::order::strict_weak(table_lt()),
{
    let lt = table_lt();
    assert forall|a: SheetView| !#[trigger] lt(a, a) by {
        crate::text::lemma_text_lt_irreflexive(a.sheet_name);
    }
    assert forall|a: SheetView, b: SheetView, c: SheetView| #[trigger]
        lt(a, b) && #[trigger] lt(b, c) implies lt(a, c) by {
        crate::text::lemma_text_lt_transitive(a.sheet_name, b.sheet_name, c.sheet_name);
    }
    assert forall|a: SheetView, b: SheetView, c: SheetView|
        !#[trigger] lt(a, b) && !#[trigger] lt(b, c) implies !lt(a, c) by {
        crate::text::lemma_text_lt_total(a.sheet_name, b.sheet_name);
        crate::text::lemma_text_lt_total(b.sheet_name, c.sheet_name);
        if lt(a, c) {
            if text_lt(b.sheet_name, a.sheet_name) && text_lt(a.sheet_name, c.sheet_name) {
                crate::text::lemma_text_lt_transitive(b.sheet_name, a.sheet_name, c.sheet_name);
            }
            if text_lt(c.sheet_name, b.sheet_name) && text_lt(a.sheet_name, c.sheet_name) {
                crate::text::lemma_text_lt_transitive(a.sheet_name, c.sheet_name, b.sheet_name);
            }
            if text_lt(c.sheet_name, b.sheet_name) && text_lt(b.sheet_name, a.sheet_name) {
                crate::text::lemma_text_lt_transitive(c.sheet_name, b.sheet_name, a.sheet_name);
                crate::text::lemma_text_lt_asymmetric(c.sheet_name, a.sheet_name);
            }
            crate::text::lemma_text_lt_irreflexive(a.sheet_name);
            crate::text::lemma_text_lt_irreflexive(c.sheet_name);
        }
    }
}

/// The types of a workbook are the types under which its nodes are
/// listed, each once.
pub proof fn lemma_all_types(nodes: Seq<NodeView>)
    ensures
        strictly_sorted(all_types(nodes)),
        forall|class: Seq<char>|
            all_types(nodes).contains(class) <==> exists|i: int|
                0 <= i < nodes.len() && node_types(#[trigger] nodes[i]).contains(class),
    decreases nodes.len(),
{
    if nodes.len() > 0 {
        let rest = nodes.drop_last();
        lemma_all_types(rest);
        lemma_insert_all(all_types(rest), node_types(nodes.last()));
        assert forall|class: Seq<char>|
            all_types(nodes).contains(class) <==> exists|i: int|
                0 <= i < nodes.len() && node_types(#[trigger] nodes[i]).contains(class) by {
            if all_types(rest).contains(class) {
                let i = choose|i: int|
                    0 <= i < rest.len() && node_types(#[trigger] rest[i]).contains(class);
                assert(nodes[i] == rest[i]);
            }
            if node_types(nodes.last()).contains(class) {
                assert(nodes[nodes.len() - 1] == nodes.last());
            }
            if exists|i: int|
                0 <= i < nodes.len() && node_types(#[trigger] nodes[i]).contains(class) {
                let i = choose|i: int|
                    0 <= i < nodes.len() && node_types(#[trigger] nodes[i]).contains(class);
                if i < rest.len() {
                    assert(rest[i] == nodes[i]);
                }
            }
        }
    } else {
        assert forall|class: Seq<char>| !all_types(nodes).contains(class) by {}
    }
}

/// How many pairs of a node and one of the types under which it is listed
/// there are.
pub open spec fn membership_count(nodes: Seq<NodeView>) -> nat
    decreases nodes.len(),
{
    if nodes.len() == 0 {
        0
    } else {
        membership_count(nodes.drop_last()) + node_types(nodes.last()).len()
    }
}

/// There are as many rows of memberships as pairs of a node and a type.
pub proof fn lemma_memberships_len(nodes: Seq<NodeView>)
    ensures
        memberships(nodes).len() == membership_count(nodes),
    decreases nodes.len(),
{
    if nodes.len() > 0 {
        lemma_memberships_len(nodes.drop_last());
    }
}

/// In the workbook for any nodes, the metadata table names one type sheet
/// for each type under which a node is listed (the marker for nodes
/// without types counts as one), each type once; and the table of
/// memberships holds exactly one row for each pair of a node and one of
/// its types.
pub proof fn tables_match_types(nodes: Seq<NodeView>)
    ensures
        strictly_sorted(all_types(nodes)),
        forall|class: Seq<char>|
            all_types(nodes).contains(class) <==> exists|i: int|
                0 <= i < nodes.len() && node_types(#[trigger] nodes[i]).contains(class),
        flattened(nodes)[1].rows == metadata_rows(nodes),
        forall|i: int|
            0 <= i < metadata_rows(nodes).len() ==> ((#[trigger] metadata_rows(nodes)[i])[0]
                == "type"@ <==> i < all_types(nodes).len()),
        forall|i: int|
            0 <= i < all_types(nodes).len() ==> (#[trigger] metadata_rows(nodes)[i])[2]
                == all_types(nodes)[i],
        flattened(nodes)[0].rows.len() == membership_count(nodes),
        flattened(nodes)[0].rows.to_multiset() == memberships(nodes).to_multiset(),
{
    lemma_all_types(nodes);
    lemma_memberships_len(nodes);
    crate::rows::lemma_row_lt_weak(2);
    crate::order::lemma_sort(memberships(nodes), row_lt(2));
    reveal_strlit("type");
    reveal_strlit("child");
    assert("type"@ != "child"@) by {
        assert("type"@[0] == 't');
        assert("child"@[0] == 'c');
    }
}

/// The last row and the last column of the range that a table takes up on
/// its sheet, counted from zero and cut to the sizes that a sheet can
/// address: the header row alone for a table without rows, and the first
/// column for a table without columns.
pub open spec fn extent(table: SheetView) -> (int, int) {
    (
        (table.rows.len() % 0x1_0000_0000) as int,
        if table.columns.len() % 0x1_0000 == 0 {
            0
        } else {
            table.columns.len() % 0x1_0000 - 1
        },
    )
}

/// The last row and the last column of the range that a table takes up on
/// its sheet.
pub fn table_extent(table: &SheetTable) -> (r: (u32, u16))
    ensures
        (r.0 as int, r.1 as int) == extent(table@),
{
    let rows: u64 = (table.rows.len() as u64) % 0x1_0000_0000;
    let columns: u64 = (table.columns.len() as u64) % 0x1_0000;
    assert(table@.rows.len() == table.rows@.len());
    assert(table@.columns.len() == table.columns@.len());
    let last_column: u16 = if columns == 0 { 0 } else { (columns - 1) as u16 };
    (rows as u32, last_column)
}

/// The text of the cell that holds a value; `None` for a list of
/// references, which has no cell.
pub fn cell_text_of(value: &PropertyValue) -> (r: Result<Option<String>, ToolError>)
    ensures
        match r {
            Ok(Some(text)) => cell_of(value@) == Some(text@),
            Ok(None) => value@ is ObjectRefs,
            Err(_) => false,
        },
{
    match value {
        PropertyValue::Scalar(scalar) => match scalar_to_cell_value(scalar) {
            Ok(text) => Ok(Some(text)),
            Err(e) => Err(e),
        },
        PropertyValue::ObjectRef(target) => Ok(Some(target.clone())),
        PropertyValue::Array(ArrayValue::Scalars(items)) => match scalars_to_cell_value(items) {
            Ok(text) => Ok(Some(text)),
            Err(e) => Err(e),
        },
        PropertyValue::Array(ArrayValue::ObjectRefs(_)) => Ok(None),
    }
}

/// How many child tables the workbook for the nodes has.
pub fn collect_child_key_count(nodes: &[Node]) -> (count: usize)
    ensures
        count == child_keys(nodes_view(nodes@)).len(),
{
    let found = collect_child_keys(nodes);
    proof {
        crate::rows::lemma_row_lt_weak(2);
        crate::order::lemma_sort(rows_view(found@), row_lt(2));
        assert(rows_view(found@).len() == found@.len());
    }
    found.len()
}

} // verus!
