//! Reading a batch: a comma-separated list of `FROM/TO/RATE` triples.
//!
//! Cutting the line into fields, counting them, and telling redundant pairs
//! apart is done here. Reading a rate's digits is not: the caller reads each
//! rate field and hands in what it found, one reading per triple.

use crate::scan::{first_index, lemma_first_index_absent, lemma_first_index_at};
use crate::store::{is_positive, positive};
use crate::text::{split, split_fields, texts};
use vstd::prelude::*;

verus! {

/// What an edge carries: its additive path weight, in the caller's
/// fixed-point unit, and the rate that the weight stands for, as a bit
/// pattern.
#[derive(Clone, Copy, Debug, PartialEq, Eq, Structural)]
pub struct Weight {
    pub weight: i64,
    pub rate: u64,
}

/// One quoted rate as the graph takes it: what the edge from the first
/// currency to the second carries, and what the edge back carries.
#[derive(Clone, Copy, Debug, PartialEq, Eq, Structural)]
pub struct Quote {
    pub forward: Weight,
    pub inverse: Weight,
}

impl Quote {
    /// Both rates are positive numbers.
    pub open spec fn valid(self) -> bool {
        positive(self.forward.rate) && positive(self.inverse.rate)
    }

    /// Whether both rates are positive numbers.
    pub fn is_valid(&self) -> (b: bool)
        ensures
            b == self.valid(),
    {
        is_positive(self.forward.rate) && is_positive(self.inverse.rate)
    }
}

/// One unit of `from` converts to units of `to` at the quoted rate.
#[derive(Clone, Debug, PartialEq, Eq)]
pub struct Exchange {
    pub from: String,
    pub to: String,
    pub quote: Quote,
}

/// An exchange as contracts speak of it.
pub struct ExchangeView {
    pub from: Seq<char>,
    pub to: Seq<char>,
    pub quote: Quote,
}

impl View for Exchange {
    type V = ExchangeView;

    open spec fn view(&self) -> ExchangeView {
        ExchangeView { from: self.from@, to: self.to@, quote: self.quote }
    }
}

/// Why a batch was rejected.
#[derive(Clone, Debug, PartialEq, Eq)]
pub enum ParseError {
    /// A triple that does not have three fields; holds the triple.
    MalformedTriple(String),
    /// A rate field that is no positive number; holds the field.
    InvalidRate(String),
    /// Two triples of the batch name the same two currencies.
    DuplicatePair,
}

/// A rejection as contracts speak of it.
pub enum ParseErrorView {
    MalformedTriple(Seq<char>),
    InvalidRate(Seq<char>),
    DuplicatePair,
}

impl View for ParseError {
    type V = ParseErrorView;

    open spec fn view(&self) -> ParseErrorView {
        match self {
            ParseError::MalformedTriple(value) => ParseErrorView::MalformedTriple(value@),
            ParseError::InvalidRate(field) => ParseErrorView::InvalidRate(field@),
            ParseError::DuplicatePair => ParseErrorView::DuplicatePair,
        }
    }
}

/// The views of a vector of exchanges.
pub open spec fn exchange_views(v: Seq<Exchange>) -> Seq<ExchangeView> {
    v.map_values(|x: Exchange| x@)
}

/// The reading for the triple at `i`; a triple without one counts as unread.
pub open spec fn reading_at(readings: Seq<Option<Quote>>, i: int) -> Option<Quote> {
    if 0 <= i < readings.len() {
        readings[i]
    } else {
        None
    }
}

/// What one triple comes to: an exchange, where it has three fields and its
/// rate was read as a positive number, with a positive inverse; else the
/// reason why not. The field count is looked at first.
pub open spec fn triple(value: Seq<char>, reading: Option<Quote>) -> Result<
    ExchangeView,
    ParseErrorView,
> {
    let fields = split(value, '/');
    if fields.len() != 3 {
        Err(ParseErrorView::MalformedTriple(value))
    } else {
        match reading {
            Some(quote) => if quote.valid() {
                Ok(ExchangeView { from: fields[0], to: fields[1], quote })
            } else {
                Err(ParseErrorView::InvalidRate(fields[2]))
            },
            None => Err(ParseErrorView::InvalidRate(fields[2])),
        }
    }
}

/// What each triple of the batch comes to, in order.
pub open spec fn triples(data: Seq<char>, readings: Seq<Option<Quote>>) -> Seq<
    Result<ExchangeView, ParseErrorView>,
> {
    let values = split(data, ',');
    Seq::new(values.len(), |i: int| triple(values[i], reading_at(readings, i)))
}

/// Whether two exchanges name the same two currencies, in either order.
pub open spec fn same_pair(a: ExchangeView, b: ExchangeView) -> bool {
    (a.from == b.from && a.to == b.to) || (a.from == b.to && a.to == b.from)
}

/// Whether two exchanges of the list name the same two currencies.
pub open spec fn has_duplicate(list: Seq<ExchangeView>) -> bool {
    exists|i: int, j: int| 0 <= i < j < list.len() && same_pair(list[i], list[j])
}

/// For each outcome, whether it is a failure.
pub open spec fn failures(outcomes: Seq<Result<ExchangeView, ParseErrorView>>) -> Seq<bool> {
    outcomes.map_values(|r: Result<ExchangeView, ParseErrorView>| r is Err)
}

/// What a batch comes to. The first triple that fails gives the error. If
/// none fails and two triples name the same pair, the batch is a duplicate.
/// Otherwise it is the list of its exchanges, in order.
pub open spec fn parsed(data: Seq<char>, readings: Seq<Option<Quote>>) -> Result<
    Seq<ExchangeView>,
    ParseErrorView,
> {
    let outcomes = triples(data, readings);
    let bad = first_index(failures(outcomes), true);
    if 0 <= bad < outcomes.len() {
        Err(outcomes[bad]->Err_0)
    } else {
        let list = outcomes.map_values(|r: Result<ExchangeView, ParseErrorView>| r->Ok_0);
        if has_duplicate(list) {
            Err(ParseErrorView::DuplicatePair)
        } else {
            Ok(list)
        }
    }
}

/// The rate field of each triple of the batch, in order; `None` for a triple
/// that does not have three fields.
pub open spec fn rate_texts(data: Seq<char>) -> Seq<Option<Seq<char>>> {
    let values = split(data, ',');
    Seq::new(
        values.len(),
        |i: int|
            {
                let fields = split(values[i], '/');
                if fields.len() == 3 {
                    Some(fields[2])
                } else {
                    None
                }
            },
    )
}

/// The views of a vector of optional strings.
pub open spec fn optional_texts(v: Seq<Option<String>>) -> Seq<Option<Seq<char>>> {
    v.map_values(
        |s: Option<String>|
            match s {
                Some(t) => Some(t@),
                None => None,
            },
    )
}

/// The rate fields of a batch, for the caller to read: one entry per triple,
/// `None` where the triple does not have three fields.
pub fn rate_fields(data: &str) -> (fields: Vec<Option<String>>)
    ensures
        optional_texts(fields@) == rate_texts(data@),
{
    let values = split_fields(data, ',');
    let mut out: Vec<Option<String>> = Vec::new();
    let mut i: usize = 0;
    while i < values.len()
        invariant
            0 <= i <= values.len(),
            texts(values@) == split(data@, ','),
            out.len() == i,
            forall|k: int| 0 <= k < i ==> optional_texts(out@)[k] == rate_texts(data@)[k],
        decreases values.len() - i,
    {
        assert(texts(values@)[i as int] == values[i as int]@);
        let parts = split_fields(values[i].as_str(), '/');
        let ghost before = out@;
        if parts.len() == 3 {
            assert(texts(parts@)[2] == parts[2]@);
            out.push(Some(parts[2].clone()));
        } else {
            out.push(None);
        }
        assert(forall|k: int| 0 <= k < i ==> optional_texts(out@)[k] == optional_texts(before)[k]);
        i += 1;
    }
    assert(optional_texts(out@) =~= rate_texts(data@));
    out
}

/// Whether two exchanges of the list name the same two currencies, in
/// either order.
pub fn has_duplicates(list: &Vec<Exchange>) -> (b: bool)
    ensures
        b == has_duplicate(exchange_views(list@)),
{
    let ghost views = exchange_views(list@);
    let mut i: usize = 0;
    while i < list.len()
        invariant
            0 <= i <= list.len(),
            views == exchange_views(list@),
            forall|a: int, b: int|
                0 <= a < i && a < b < list.len() ==> !same_pair(views[a], views[b]),
        decreases list.len() - i,
    {
        let mut j: usize = i + 1;
        while j < list.len()
            invariant
                0 <= i < j <= list.len(),
                views == exchange_views(list@),
                forall|b: int| i < b < j ==> !same_pair(views[i as int], views[b]),
            decreases list.len() - j,
        {
            let same = list[i].from == list[j].from && list[i].to == list[j].to;
            let crossed = list[i].from == list[j].to && list[i].to == list[j].from;
            assert(views[i as int] == list[i as int]@ && views[j as int] == list[j as int]@);
            if same || crossed {
                assert(same_pair(views[i as int], views[j as int]));
                return true;
            }
            j += 1;
        }
        i += 1;
    }
    false
}

/// The view of what `parse_input` returns.
pub open spec fn parsed_view(r: Result<Vec<Exchange>, ParseError>) -> Result<
    Seq<ExchangeView>,
    ParseErrorView,
> {
    match r {
        Ok(list) => Ok(exchange_views(list@)),
        Err(e) => Err(e@),
    }
}

/// Reads a batch. `data` is the line; `readings` holds, for each triple in
/// order, what its rate field was read as, or `None` where it is no number.
///
/// The triples are taken in order, and the first one that fails decides:
/// a triple that does not have three fields gives `MalformedTriple`, one
/// whose rate was not read, or is not positive with a positive inverse,
/// gives `InvalidRate`. If every triple passes and
/// two of them name the same two currencies, in either order, the result is
/// `DuplicatePair`. Otherwise it is the list of exchanges.
pub fn parse_input(data: &str, readings: &Vec<Option<Quote>>) -> (r: Result<
    Vec<Exchange>,
    ParseError,
>)
    ensures
        parsed_view(r) == parsed(data@, readings@),
        r matches Ok(list) ==> forall|k: int|
            0 <= k < list.len() ==> (#[trigger] list[k]).quote.valid(),
{
    let values = split_fields(data, ',');
    let ghost outcomes = triples(data@, readings@);
    let mut list: Vec<Exchange> = Vec::new();
    let mut i: usize = 0;
    while i < values.len()
        invariant
            0 <= i <= values.len(),
            texts(values@) == split(data@, ','),
            outcomes == triples(data@, readings@),
            list.len() == i,
            forall|k: int|
                0 <= k < i ==> outcomes[k] == Ok::<ExchangeView, ParseErrorView>(list[k]@),
            forall|k: int| 0 <= k < i ==> (#[trigger] list[k]).quote.valid(),
        decreases values.len() - i,
    {
        assert(texts(values@)[i as int] == values[i as int]@);
        let parts = split_fields(values[i].as_str(), '/');
        if parts.len() != 3 {
            proof {
                assert(outcomes[i as int] is Err);
                lemma_first_index_at(failures(outcomes), true, i as int);
            }
            return Err(ParseError::MalformedTriple(values[i].clone()));
        }
        assert(texts(parts@)[0] == parts[0]@ && texts(parts@)[1] == parts[1]@ && texts(parts@)[2]
            == parts[2]@);
        let reading = if i < readings.len() {
            readings[i]
        } else {
            None
        };
        match reading {
            None => {
                proof {
                    assert(outcomes[i as int] is Err);
                    lemma_first_index_at(failures(outcomes), true, i as int);
                }
                return Err(ParseError::InvalidRate(parts[2].clone()));
            },
            Some(quote) => {
                if !quote.is_valid() {
                    proof {
                        assert(outcomes[i as int] is Err);
                        lemma_first_index_at(failures(outcomes), true, i as int);
                    }
                    return Err(ParseError::InvalidRate(parts[2].clone()));
                }
                list.push(Exchange { from: parts[0].clone(), to: parts[1].clone(), quote });
            },
        }
        i += 1;
    }
    proof {
        lemma_first_index_absent(failures(outcomes), true);
        assert(exchange_views(list@) =~= outcomes.map_values(
            |r: Result<ExchangeView, ParseErrorView>| r->Ok_0,
        ));
    }
    if has_duplicates(&list) {
        Err(ParseError::DuplicatePair)
    } else {
        Ok(list)
    }
}

} // verus!
