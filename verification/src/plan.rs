//! Which documents are committed, and in which order.

use vstd::prelude::*;
use vstd::string::StringExecFns;
use vstd::utf8::{encode_utf8, encode_utf8_decode_utf8, is_ascii_chars_encode_utf8};

use crate::lex::{
    lemma_lex_asymmetric, lemma_lex_decided, lemma_lex_last, lemma_lex_total, lemma_lex_transitive,
    lex_before, stands_before,
};
use crate::render::path::{compute_path, ordinance_path};
use crate::repo_path::{PathModel, RepoPathBuf};
use crate::sort::{
    is_stable_sort, lemma_stable_sort_map, lemma_stable_sort_permutes, lemma_stable_sorted, sort,
    stable_sorted,
    Rank, Ranked,
};
use crate::text::{
    all_digits, decimal, digits_to_u64, digits_value, is_ascii_digit, lemma_decimal_read_back,
    only_digits, sub_chars, to_chars,
};
use crate::timestamp::{lemma_epochs_follow_dates, lemma_noon_in_korea, promulgation_epoch};
use crate::xml_events::xml_events;
use crate::xml_parser::metadata::{
    metadata_outcome, metadata_result, metadata_start, parse_metadata_only, MetadataOutcome,
};
use crate::xml_parser::model::{
    parse_error_chain, MetadataModel, OrdinanceMetadata, ParseError, ParseErrorModel,
};

verus! {

/// Planning record for one XML document.
#[derive(Debug)]
pub struct PlannedEntry {
    /// Cache filename stem (ordinance id used for file lookup).
    pub stem: String,
    /// Final repository path assigned during planning.
    pub path: RepoPathBuf,
    /// Metadata collected during the cheap planning pass.
    pub metadata: OrdinanceMetadata,
}

/// What a [`PlannedEntry`] stands for.
pub struct EntryModel {
    pub stem: Seq<char>,
    pub path: PathModel,
    pub metadata: MetadataModel,
}

impl View for PlannedEntry {
    type V = EntryModel;

    open spec fn view(&self) -> EntryModel {
        EntryModel { stem: self.stem@, path: self.path@, metadata: self.metadata@ }
    }
}

impl Clone for PlannedEntry {
    fn clone(&self) -> (r: Self)
        ensures
            r@ == self@,
    {
        PlannedEntry {
            stem: self.stem.clone(),
            path: self.path.clone(),
            metadata: self.metadata.clone(),
        }
    }
}

/// What planning makes of one document.
#[derive(Debug)]
pub enum PlanOutcome {
    /// The document is committed.
    Planned(PlannedEntry),
    /// The ordinance has no type or no name.
    MissingTypeOrName,
    /// The document is no ordinance.
    NotOrdinance,
    /// The document cannot be read.
    Unparsable(ParseError),
}

/// What a [`PlanOutcome`] stands for.
pub enum PlanModel {
    Planned(EntryModel),
    MissingTypeOrName,
    NotOrdinance,
    Unparsable(ParseErrorModel),
}

impl View for PlanOutcome {
    type V = PlanModel;

    open spec fn view(&self) -> PlanModel {
        match *self {
            PlanOutcome::Planned(entry) => PlanModel::Planned(entry@),
            PlanOutcome::MissingTypeOrName => PlanModel::MissingTypeOrName,
            PlanOutcome::NotOrdinance => PlanModel::NotOrdinance,
            PlanOutcome::Unparsable(error) => PlanModel::Unparsable(error@),
        }
    }
}

/// What planning makes of a document, given its metadata.
pub open spec fn plan_of(stem: Seq<char>, parsed: MetadataOutcome) -> PlanModel {
    match parsed {
        Ok(Some(metadata)) => match ordinance_path(metadata) {
            Some(path) => PlanModel::Planned(EntryModel { stem, path, metadata }),
            None => PlanModel::MissingTypeOrName,
        },
        Ok(None) => PlanModel::NotOrdinance,
        Err(error) => PlanModel::Unparsable(error),
    }
}

/// Plans a document whose metadata has been read.
pub fn plan_metadata(
    stem: &str,
    parsed: Result<Option<OrdinanceMetadata>, ParseError>,
) -> (r: PlanOutcome)
    ensures
        r@ == plan_of(stem@, metadata_result(parsed)),
{
    match parsed {
        Ok(Some(metadata)) => match compute_path(&metadata) {
            Some(path) => PlanOutcome::Planned(
                PlannedEntry { stem: stem.to_owned(), path, metadata },
            ),
            None => PlanOutcome::MissingTypeOrName,
        },
        Ok(None) => PlanOutcome::NotOrdinance,
        Err(error) => PlanOutcome::Unparsable(error),
    }
}

/// Reads the metadata of a document and plans it.
pub fn plan_entry(stem: &str, xml: &[u8]) -> (r: PlanOutcome)
    ensures
        r@ == plan_of(stem@, metadata_outcome(metadata_start(), xml_events(xml@))),
{
    plan_metadata(stem, parse_metadata_only(xml))
}

/// The warning for a document that is skipped.
pub open spec fn warning_text(outcome: PlanModel, path: Seq<char>) -> Option<Seq<char>> {
    match outcome {
        PlanModel::Planned(_) => None,
        PlanModel::MissingTypeOrName => Some(
            "warning: skipping ordinance with missing type/name: "@ + path,
        ),
        PlanModel::NotOrdinance => Some("warning: skipping non-ordinance XML "@ + path),
        PlanModel::Unparsable(error) => Some(
            "warning: skipping unparsable cache file "@ + path + ": "@ + parse_error_chain(error),
        ),
    }
}

/// The warning for a document that is skipped.
pub fn skip_warning(outcome: &PlanOutcome, path: &str) -> (r: Option<String>)
    ensures
        match warning_text(outcome@, path@) {
            Some(text) => r matches Some(warning) && warning@ == text,
            None => r is None,
        },
{
    match outcome {
        PlanOutcome::Planned(_) => None,
        PlanOutcome::MissingTypeOrName => {
            let mut out = "warning: skipping ordinance with missing type/name: ".to_owned();
            out.append(path);
            Some(out)
        },
        PlanOutcome::NotOrdinance => {
            let mut out = "warning: skipping non-ordinance XML ".to_owned();
            out.append(path);
            Some(out)
        },
        PlanOutcome::Unparsable(error) => {
            let mut out = "warning: skipping unparsable cache file ".to_owned();
            out.append(path);
            out.append(": ");
            out.append(error.to_chain().as_str());
            Some(out)
        },
    }
}

/// The number that an ordinance id denotes: digits, with or without a plus sign in front of them,
/// for a number below two to the power of 64.
pub open spec fn numeric_id(id: Seq<char>) -> Option<nat> {
    let digits = if id.len() > 0 && id[0] == '+' {
        id.drop_first()
    } else {
        id
    };
    if digits.len() > 0 && all_digits(digits) && digits_value(digits) <= u64::MAX {
        Some(digits_value(digits))
    } else {
        None
    }
}

/// An ordinance id comes before another: numbers by value, and before all other ids; those by their
/// bytes.
pub open spec fn id_before(a: Seq<char>, b: Seq<char>) -> bool {
    match (numeric_id(a), numeric_id(b)) {
        (Some(x), Some(y)) => x < y,
        (Some(_), None) => true,
        (None, Some(_)) => false,
        (None, None) => lex_before(encode_utf8(a), encode_utf8(b)),
    }
}

/// An ordinance is committed before another: by date, and on one date by id.
pub open spec fn committed_before(a: MetadataModel, b: MetadataModel) -> bool {
    let x = encode_utf8(a.promulgation_date);
    let y = encode_utf8(b.promulgation_date);
    lex_before(x, y) || (x == y && id_before(a.ordinance_id, b.ordinance_id))
}

proof fn lemma_id_order(a: Seq<char>, b: Seq<char>, c: Seq<char>)
    ensures
        id_before(a, b) ==> !id_before(b, a),
        !id_before(b, a) && !id_before(c, b) ==> !id_before(c, a),
{
    lemma_lex_asymmetric(encode_utf8(a), encode_utf8(b));
    lemma_lex_transitive(encode_utf8(a), encode_utf8(b), encode_utf8(c));
}

impl Rank for EntryModel {
    open spec fn precedes(self, other: Self) -> bool {
        committed_before(self.metadata, other.metadata)
    }

    proof fn lemma_asymmetric(a: Self, b: Self) {
        let x = encode_utf8(a.metadata.promulgation_date);
        let y = encode_utf8(b.metadata.promulgation_date);
        lemma_lex_asymmetric(x, y);
        lemma_id_order(
            a.metadata.ordinance_id,
            b.metadata.ordinance_id,
            b.metadata.ordinance_id,
        );
    }

    proof fn lemma_transitive(a: Self, b: Self, c: Self) {
        let x = encode_utf8(a.metadata.promulgation_date);
        let y = encode_utf8(b.metadata.promulgation_date);
        let z = encode_utf8(c.metadata.promulgation_date);
        lemma_lex_transitive(x, y, z);
        lemma_lex_transitive(y, z, x);
        lemma_lex_transitive(z, x, y);
        lemma_lex_total(x, y);
        lemma_lex_total(y, z);
        lemma_lex_total(x, z);
        lemma_lex_asymmetric(x, y);
        lemma_lex_asymmetric(y, z);
        lemma_lex_asymmetric(x, z);
        lemma_id_order(
            a.metadata.ordinance_id,
            b.metadata.ordinance_id,
            c.metadata.ordinance_id,
        );
    }
}

impl Rank for PlannedEntry {
    open spec fn precedes(self, other: Self) -> bool {
        self@.precedes(other@)
    }

    proof fn lemma_asymmetric(a: Self, b: Self) {
        EntryModel::lemma_asymmetric(a@, b@);
    }

    proof fn lemma_transitive(a: Self, b: Self, c: Self) {
        EntryModel::lemma_transitive(a@, b@, c@);
    }
}

/// The number that an ordinance id denotes.
pub fn parse_id(id: &str) -> (r: Option<u64>)
    ensures
        match numeric_id(id@) {
            Some(value) => r == Some(value as u64) && value <= u64::MAX,
            None => r is None,
        },
{
    let chars = to_chars(id);
    let from: usize = if chars.len() > 0 && chars[0] == '+' {
        1
    } else {
        0
    };
    let digits = sub_chars(&chars, from, chars.len());
    proof {
        if from == 1 {
            assert(digits@ =~= id@.drop_first());
        } else {
            assert(digits@ =~= id@);
        }
    }
    if digits.len() > 0 && only_digits(&digits) {
        digits_to_u64(&digits)
    } else {
        None
    }
}

fn id_comes_before(a: &str, b: &str) -> (r: bool)
    ensures
        r == id_before(a@, b@),
{
    match (parse_id(a), parse_id(b)) {
        (Some(x), Some(y)) => x < y,
        (Some(_), None) => true,
        (None, Some(_)) => false,
        (None, None) => stands_before(a.as_bytes(), b.as_bytes()),
    }
}

impl Ranked for PlannedEntry {
    fn comes_before(&self, other: &Self) -> (r: bool) {
        let a = self.metadata.promulgation_date.as_str();
        let b = other.metadata.promulgation_date.as_str();
        proof {
            lemma_lex_total(encode_utf8(a@), encode_utf8(b@));
            lemma_lex_asymmetric(encode_utf8(a@), encode_utf8(b@));
            lemma_lex_asymmetric(encode_utf8(a@), encode_utf8(a@));
        }
        if stands_before(a.as_bytes(), b.as_bytes()) {
            true
        } else if stands_before(b.as_bytes(), a.as_bytes()) {
            false
        } else {
            id_comes_before(
                self.metadata.ordinance_id.as_str(),
                other.metadata.ordinance_id.as_str(),
            )
        }
    }
}

/// The views of entries.
pub open spec fn entry_views(entries: Seq<PlannedEntry>) -> Seq<EntryModel> {
    entries.map_values(|e: PlannedEntry| e@)
}

/// Sorts by (공포일자 ASC, int(자치법규ID) ASC) so commit history reads oldest-first. Non-numeric ids
/// sort lexicographically after numeric ones to keep ordering total.
pub fn order_entries(entries: Vec<PlannedEntry>) -> (r: Vec<PlannedEntry>)
    ensures
        entry_views(r@) == stable_sorted(entry_views(entries@)),
{
    let ghost all = entries@;
    let sorted = sort(entries);
    proof {
        let f = |e: PlannedEntry| e@;
        assert forall|x: PlannedEntry, y: PlannedEntry| #[trigger]
            f(x).precedes(#[trigger] f(y)) == x.precedes(y) by {}
        lemma_stable_sort_map(sorted@, all, f);
        assert(sorted@.map_values(f) =~= entry_views(sorted@));
        assert(all.map_values(f) =~= entry_views(all));
    }
    sorted
}

/// The views of planning results.
pub open spec fn plan_views(outcomes: Seq<PlanOutcome>) -> Seq<PlanModel> {
    outcomes.map_values(|o: PlanOutcome| o@)
}

/// The entries among planning results, in their order.
pub open spec fn planned_entries(outcomes: Seq<PlanModel>) -> Seq<EntryModel>
    decreases outcomes.len(),
{
    if outcomes.len() == 0 {
        Seq::empty()
    } else {
        match outcomes.last() {
            PlanModel::Planned(entry) => planned_entries(outcomes.drop_last()).push(entry),
            _ => planned_entries(outcomes.drop_last()),
        }
    }
}

/// The entries to commit, in the order of their commits; nothing where there is none.
pub fn schedule(outcomes: Vec<PlanOutcome>) -> (r: Option<Vec<PlannedEntry>>)
    ensures
        match r {
            Some(entries) => entries@.len() > 0 && entry_views(entries@) == stable_sorted(
                planned_entries(plan_views(outcomes@)),
            ),
            None => planned_entries(plan_views(outcomes@)).len() == 0,
        },
{
    let ghost views = plan_views(outcomes@);
    let mut entries: Vec<PlannedEntry> = Vec::new();
    assert(entry_views(entries@) =~= planned_entries(views.take(0)));
    for outcome in it: outcomes
        invariant
            it.seq() == outcomes@,
            views == plan_views(outcomes@),
            entry_views(entries@) == planned_entries(views.take(it.index() as int)),
    {
        let ghost i = it.index() as int;
        let ghost before = entries@;
        assert(views.take(i + 1).drop_last() =~= views.take(i));
        assert(views.take(i + 1).last() == outcome@);
        match outcome {
            PlanOutcome::Planned(entry) => {
                entries.push(entry);
                assert(entry_views(entries@) =~= entry_views(before).push(entry@));
            },
            _ => {},
        }
    }
    assert(views.take(views.len() as int) =~= views);
    if entries.len() == 0 {
        assert(entry_views(entries@).len() == 0);
        return None;
    }
    proof {
        let all = entry_views(entries@);
        lemma_stable_sorted(all);
        lemma_stable_sort_permutes(stable_sorted(all), all);
    }
    let sorted = order_entries(entries);
    assert(entry_views(sorted@).len() == sorted@.len());
    Some(sorted)
}

/// Every planned document is committed once, none before one that is to be committed earlier, and
/// those of one date and id in the order in which they were found.
pub proof fn lemma_schedule(outcomes: Seq<PlanModel>)
    ensures
        ({
            let found = planned_entries(outcomes);
            let order = stable_sorted(found);
            &&& is_stable_sort(order, found)
            &&& order.to_multiset() == found.to_multiset()
            &&& forall|i: int, j: int|
                0 <= i < j < order.len() ==> !committed_before(
                    (#[trigger] order[j]).metadata,
                    (#[trigger] order[i]).metadata,
                )
        }),
{
    let found = planned_entries(outcomes);
    let order = stable_sorted(found);
    lemma_stable_sorted(found);
    lemma_stable_sort_permutes(order, found);
    assert forall|i: int, j: int| 0 <= i < j < order.len() implies !committed_before(
        (#[trigger] order[j]).metadata,
        (#[trigger] order[i]).metadata,
    ) by {
        assert(!order[j].precedes(order[i]));
    }
}

/// Two ordinances of which neither comes before the other have the same date, and ids that are the
/// same or the same number.
pub proof fn lemma_order_is_total(a: MetadataModel, b: MetadataModel)
    requires
        !committed_before(a, b),
        !committed_before(b, a),
    ensures
        a.promulgation_date == b.promulgation_date,
        a.ordinance_id == b.ordinance_id || (numeric_id(a.ordinance_id) is Some && numeric_id(
            a.ordinance_id,
        ) == numeric_id(b.ordinance_id)),
{
    lemma_lex_total(encode_utf8(a.promulgation_date), encode_utf8(b.promulgation_date));
    lemma_lex_total(encode_utf8(a.ordinance_id), encode_utf8(b.ordinance_id));
    encode_utf8_decode_utf8(a.promulgation_date);
    encode_utf8_decode_utf8(b.promulgation_date);
    encode_utf8_decode_utf8(a.ordinance_id);
    encode_utf8_decode_utf8(b.ordinance_id);
}

proof fn lemma_digits_are_bytes(s: Seq<char>)
    requires
        all_digits(s),
    ensures
        encode_utf8(s).len() == s.len(),
        forall|i: int| 0 <= i < s.len() ==> #[trigger] encode_utf8(s)[i] == s[i] as u8,
{
    assert forall|i: int| 0 <= i < s.len() implies 0 <= #[trigger] s[i] as nat && (s[i] as nat)
        < 128 by {
        assert(is_ascii_digit(s[i]));
    }
    is_ascii_chars_encode_utf8(s);
}

proof fn lemma_digits_in_order(a: Seq<char>, b: Seq<char>)
    requires
        all_digits(a),
        all_digits(b),
        a.len() == b.len(),
    ensures
        lex_before(encode_utf8(a), encode_utf8(b)) == (digits_value(a) < digits_value(b)),
        digits_value(a) == digits_value(b) ==> a == b,
    decreases a.len(),
{
    if a.len() == 0 {
        assert(a =~= b);
    } else {
        let a_most = a.drop_last();
        let b_most = b.drop_last();
        assert(is_ascii_digit(a.last()) && is_ascii_digit(b.last()));
        assert forall|i: int| 0 <= i < a_most.len() implies is_ascii_digit(
            #[trigger] a_most[i],
        ) by {
            assert(is_ascii_digit(a[i]));
        }
        assert forall|i: int| 0 <= i < b_most.len() implies is_ascii_digit(
            #[trigger] b_most[i],
        ) by {
            assert(is_ascii_digit(b[i]));
        }
        lemma_digits_in_order(a_most, b_most);
        lemma_digits_are_bytes(a);
        lemma_digits_are_bytes(b);
        lemma_digits_are_bytes(a_most);
        lemma_digits_are_bytes(b_most);
        lemma_lex_last(encode_utf8(a), encode_utf8(b));
        assert(encode_utf8(a).drop_last() =~= encode_utf8(a_most));
        assert(encode_utf8(b).drop_last() =~= encode_utf8(b_most));
        encode_utf8_decode_utf8(a_most);
        encode_utf8_decode_utf8(b_most);
        assert(a =~= a_most.push(a.last()));
        assert(b =~= b_most.push(b.last()));
    }
}

/// History reads oldest-first: of two documents whose dates have timestamps, the one that is not
/// committed before the other has no earlier timestamp.
pub proof fn lemma_timestamps_follow_order(earlier: MetadataModel, later: MetadataModel)
    requires
        !committed_before(later, earlier),
        promulgation_epoch(earlier.promulgation_date) is Ok,
        promulgation_epoch(later.promulgation_date) is Ok,
    ensures
        promulgation_epoch(earlier.promulgation_date)->Ok_0 <= promulgation_epoch(
            later.promulgation_date,
        )->Ok_0,
{
    let a = earlier.promulgation_date;
    let b = later.promulgation_date;
    if a.len() == 0 {
        if b.len() > 0 {
            lemma_noon_in_korea(b);
        }
    } else if b.len() == 0 {
        lemma_digits_are_bytes(a);
    } else {
        lemma_digits_in_order(b, a);
        lemma_epochs_follow_dates(a, b);
    }
}

/// A document that is skipped, wherever it stands, leaves the entries to commit as they are.
pub proof fn lemma_skipped_outcome(outcomes: Seq<PlanModel>, at: int, skipped: PlanModel)
    requires
        0 <= at <= outcomes.len(),
        !(skipped is Planned),
    ensures
        planned_entries(outcomes.insert(at, skipped)) == planned_entries(outcomes),
    decreases outcomes.len(),
{
    let more = outcomes.insert(at, skipped);
    if at == outcomes.len() {
        assert(more.drop_last() =~= outcomes);
    } else {
        assert(more.drop_last() =~= outcomes.drop_last().insert(at, skipped));
        lemma_skipped_outcome(outcomes.drop_last(), at, skipped);
    }
}

/// A document is planned exactly where it is an ordinance with a path. The entry keeps its stem, its
/// metadata and the path. Anything else is told apart by why it is skipped.
pub proof fn lemma_plans(stem: Seq<char>, parsed: MetadataOutcome)
    ensures
        parsed matches Ok(Some(metadata)) ==> (match ordinance_path(metadata) {
            Some(path) => plan_of(stem, parsed) matches PlanModel::Planned(entry) && entry.stem
                == stem && entry.path == path && entry.metadata == metadata,
            None => plan_of(stem, parsed) is MissingTypeOrName,
        }),
        parsed matches Ok(None) ==> plan_of(stem, parsed) is NotOrdinance,
        parsed matches Err(error) ==> plan_of(stem, parsed) == PlanModel::Unparsable(error),
{
}

/// A planned document gets no warning. Each other one gets one that says why it is skipped, and where
/// it is.
pub proof fn lemma_warnings(outcome: PlanModel, path: Seq<char>)
    ensures
        warning_text(outcome, path) is None <==> outcome is Planned,
        outcome is MissingTypeOrName ==> warning_text(outcome, path) == Some(
            "warning: skipping ordinance with missing type/name: "@ + path,
        ),
        outcome is NotOrdinance ==> warning_text(outcome, path) == Some(
            "warning: skipping non-ordinance XML "@ + path,
        ),
        outcome matches PlanModel::Unparsable(error) ==> warning_text(outcome, path) == Some(
            "warning: skipping unparsable cache file "@ + path + ": "@ + parse_error_chain(error),
        ),
{
}

/// The entries of two lists of planning results are those of the one behind those of the other, and
/// a planned document is its own entry.
pub proof fn lemma_planned_in_two(a: Seq<PlanModel>, b: Seq<PlanModel>, entry: EntryModel)
    ensures
        planned_entries(a + b) == planned_entries(a) + planned_entries(b),
        planned_entries(seq![PlanModel::Planned(entry)]) == seq![entry],
    decreases b.len(),
{
    let one = seq![PlanModel::Planned(entry)];
    reveal_with_fuel(planned_entries, 2);
    assert(one.drop_last() =~= Seq::<PlanModel>::empty());
    assert(planned_entries(one) =~= seq![entry]);
    if b.len() == 0 {
        assert(a + b =~= a);
        assert(planned_entries(a) + planned_entries(b) =~= planned_entries(a));
    } else {
        lemma_planned_in_two(a, b.drop_last(), entry);
        assert((a + b).drop_last() =~= a + b.drop_last());
        assert(planned_entries(a + b) =~= planned_entries(a) + planned_entries(b));
    }
}

/// Which ids are numbers: digits, with or without a plus sign and leading zeros, of a number below
/// two to the power of 64.
pub proof fn lemma_numeric_ids(digits: Seq<char>)
    ensures
        ({
            let is_number = digits.len() > 0 && all_digits(digits) && digits_value(digits)
                < 0x1_0000_0000_0000_0000;
            &&& is_number ==> numeric_id(digits) == Some(digits_value(digits)) && numeric_id(
                seq!['+'] + digits,
            ) == Some(digits_value(digits))
            &&& !is_number ==> numeric_id(seq!['+'] + digits) is None && (digits.len() > 0
                && digits[0] == '+' || numeric_id(digits) is None)
        }),
{
    let signed = seq!['+'] + digits;
    assert(signed.drop_first() =~= digits);
    if digits.len() > 0 && all_digits(digits) {
        assert(is_ascii_digit(digits[0]));
    }
}

/// Numbers come by their value, and before all other ids. Those come by their bytes.
pub proof fn lemma_ids_in_order(m: nat, n: nat, other: Seq<char>, another: Seq<char>, k: int)
    requires
        m < n < 0x1_0000_0000_0000_0000,
        numeric_id(other) is None,
        numeric_id(another) is None,
        0 <= k < encode_utf8(other).len(),
        k < encode_utf8(another).len(),
        forall|i: int| 0 <= i < k ==> encode_utf8(other)[i] == encode_utf8(another)[i],
        encode_utf8(other)[k] < encode_utf8(another)[k],
    ensures
        id_before(decimal(m), decimal(n)) && !id_before(decimal(n), decimal(m)),
        id_before(decimal(n), other) && !id_before(other, decimal(n)),
        id_before(other, another) && !id_before(another, other),
{
    lemma_decimal_read_back(m);
    lemma_decimal_read_back(n);
    lemma_numeric_ids(decimal(m));
    lemma_numeric_ids(decimal(n));
    lemma_lex_decided(encode_utf8(other), encode_utf8(another), k);
}

/// An earlier date comes first, whatever the ids. On one date the ids decide.
pub proof fn lemma_dates_in_order(a: MetadataModel, b: MetadataModel)
    ensures
        ({
            let x = a.promulgation_date;
            let y = b.promulgation_date;
            &&& x.len() == 8 && y.len() == 8 && all_digits(x) && all_digits(y) && digits_value(x)
                < digits_value(y) ==> committed_before(a, b) && !committed_before(b, a)
            &&& x == y ==> committed_before(a, b) == id_before(a.ordinance_id, b.ordinance_id)
            &&& x.len() == 0 && y.len() > 0 ==> committed_before(a, b) && !committed_before(b, a)
        }),
{
    let x = encode_utf8(a.promulgation_date);
    let y = encode_utf8(b.promulgation_date);
    lemma_lex_asymmetric(x, y);
    lemma_lex_asymmetric(x, x);
    encode_utf8_decode_utf8(a.promulgation_date);
    encode_utf8_decode_utf8(b.promulgation_date);
    if a.promulgation_date.len() == 8 && b.promulgation_date.len() == 8 && all_digits(
        a.promulgation_date,
    ) && all_digits(b.promulgation_date) {
        lemma_digits_in_order(a.promulgation_date, b.promulgation_date);
    }
    if a.promulgation_date.len() == 0 && b.promulgation_date.len() > 0 {
        lemma_digits_are_bytes(a.promulgation_date);
        lemma_lex_total(x, y);
        assert(!lex_before(y, x));
    }
}

/// Dates come by their bytes, whatever they are. Ids that are the same number are of one rank, and
/// ids that are no numbers come by their bytes.
pub proof fn lemma_order_by_bytes(a: MetadataModel, b: MetadataModel, k: int)
    requires
        0 <= k < encode_utf8(a.promulgation_date).len(),
        k < encode_utf8(b.promulgation_date).len(),
        forall|i: int|
            0 <= i < k ==> encode_utf8(a.promulgation_date)[i] == encode_utf8(
                b.promulgation_date,
            )[i],
        encode_utf8(a.promulgation_date)[k] < encode_utf8(b.promulgation_date)[k],
    ensures
        committed_before(a, b) && !committed_before(b, a),
        numeric_id(a.ordinance_id) is Some && numeric_id(a.ordinance_id) == numeric_id(
            b.ordinance_id,
        ) ==> !id_before(a.ordinance_id, b.ordinance_id),
        numeric_id(a.ordinance_id) is None && numeric_id(b.ordinance_id) is None ==> id_before(
            a.ordinance_id,
            b.ordinance_id,
        ) == lex_before(encode_utf8(a.ordinance_id), encode_utf8(b.ordinance_id)),
{
    lemma_lex_decided(encode_utf8(a.promulgation_date), encode_utf8(b.promulgation_date), k);
}

} // verus!
