//! The delimited text form of the dictionary: one `term<separator>weight`
//! record per line.

use crate::completion::{covered, entry, listed, rank_before, ranked, Completion};
use crate::key::key_as_str;
use crate::order::heaviest_first;
use crate::trie::PruningRadixTrie;
use vstd::prelude::*;
use vstd::string::*;

verus! {

/// Why a record could not be loaded.
#[derive(Debug, PartialEq, Eq)]
pub enum LoadError {
    /// The record has no field at the term index or at the weight index.
    MissingField,
    /// The weight field is not a non-negative decimal number that fits.
    BadWeight,
    /// The term field is empty.
    EmptyTerm,
}

/// The character is a decimal digit.
pub open spec fn is_digit(c: char) -> bool {
    48 <= c as u32 <= 57
}

/// Every character is a decimal digit.
pub open spec fn all_digits(s: Seq<char>) -> bool {
    forall|i: int| 0 <= i < s.len() ==> is_digit(#[trigger] s[i])
}

/// The number that a string of decimal digits denotes.
pub open spec fn digits_value(s: Seq<char>) -> nat
    decreases s.len(),
{
    if s.len() == 0 {
        0
    } else {
        digits_value(s.drop_last()) * 10 + (s.last() as u32 - 48) as nat
    }
}

/// The weight that a field denotes: decimal digits, at least one, after an
/// optional `+`, whose value fits; otherwise none.
pub open spec fn weight_value(s: Seq<char>) -> Option<usize> {
    let d = if s.len() > 0 && s[0] == '+' {
        s.skip(1)
    } else {
        s
    };
    if d.len() > 0 && all_digits(d) && digits_value(d) <= usize::MAX {
        Some(digits_value(d) as usize)
    } else {
        None
    }
}

/// A longer string of digits denotes no smaller a number than its prefix.
pub proof fn lemma_digits_value_grows(s: Seq<char>, n: int)
    requires
        0 <= n <= s.len(),
    ensures
        digits_value(s.take(n)) <= digits_value(s),
    decreases s.len() - n,
{
    if n < s.len() {
        lemma_digits_value_grows(s, n + 1);
        assert(s.take(n + 1).drop_last() =~= s.take(n));
    } else {
        assert(s.take(n) =~= s);
    }
}

/// Reads a weight field.
pub fn parse_weight(s: &str) -> (r: Option<usize>)
    ensures
        r == weight_value(s@),
{
    let n: usize = s.unicode_len();
    let start: usize = if n > 0 && s.get_char(0) == '+' {
        1
    } else {
        0
    };
    if start == n {
        return None;
    }
    let ghost d = if start == 1 {
        s@.skip(1)
    } else {
        s@
    };
    let mut acc: usize = 0;
    let mut i: usize = start;
    assert(d.take(0).len() == 0);
    assert(digits_value(d.take(0)) == 0);
    while i < n
        invariant
            start <= i <= n,
            n == s@.len(),
            d.len() == n - start,
            d == if s@.len() > 0 && s@[0] == '+' {
                s@.skip(1)
            } else {
                s@
            },
            forall|j: int| 0 <= j < d.len() ==> #[trigger] d[j] == s@[j + start],
            all_digits(d.take(i - start)),
            acc == digits_value(d.take(i - start)),
        decreases n - i,
    {
        let v: u32 = s.get_char(i) as u32;
        if v < 48 || v > 57 {
            assert(!is_digit(d[i - start]));
            assert(!all_digits(d));
            return None;
        }
        let digit: usize = (v - 48) as usize;
        assert(d.take(i - start + 1).drop_last() =~= d.take(i - start));
        if acc > (usize::MAX - digit) / 10 {
            proof {
                lemma_digits_value_grows(d, i - start + 1);
            }
            return None;
        }
        acc = acc * 10 + digit;
        i = i + 1;
        assert(all_digits(d.take(i - start))) by {
            assert forall|j: int| 0 <= j < i - start implies is_digit(
                #[trigger] d.take(i - start)[j],
            ) by {
                if j < i - start - 1 {
                    assert(d.take(i - start - 1)[j] == d[j]);
                }
            }
        }
    }
    assert(d.take(n - start) =~= d);
    Some(acc)
}

/// The fields into which `separator` splits `line`.
pub uninterp spec fn split_fields(line: Seq<char>, separator: Seq<char>) -> Seq<Seq<char>>;

/// Calls `str::split` and copies the fields. Trusted: the fields are those
/// that the split gives for this line and separator.
#[verifier::external_body]
pub(crate) fn split_line(line: &str, separator: &str) -> (fields: Vec<String>)
    ensures
        fields@.len() == split_fields(line@, separator@).len(),
        forall|i: int| 0 <= i < fields@.len() ==> fields@[i]@ == split_fields(line@, separator@)[i],
{
    line.split(separator).map(|field| field.to_string()).collect()
}

/// The character of a decimal digit.
pub open spec fn digit_char(d: nat) -> char {
    if d == 0 {
        '0'
    } else if d == 1 {
        '1'
    } else if d == 2 {
        '2'
    } else if d == 3 {
        '3'
    } else if d == 4 {
        '4'
    } else if d == 5 {
        '5'
    } else if d == 6 {
        '6'
    } else if d == 7 {
        '7'
    } else if d == 8 {
        '8'
    } else {
        '9'
    }
}

/// The decimal numeral of a number: its digits, the highest first, with no
/// sign and no leading zero.
pub open spec fn numeral(n: nat) -> Seq<char>
    decreases n,
{
    if n < 10 {
        Seq::empty().push(digit_char(n))
    } else {
        numeral(n / 10).push(digit_char(n % 10))
    }
}

/// The numeral of a number is made of digits and denotes the number.
pub proof fn lemma_numeral_digits(n: nat)
    ensures
        numeral(n).len() > 0,
        all_digits(numeral(n)),
        digits_value(numeral(n)) == n,
    decreases n,
{
    let s = numeral(n);
    if n < 10 {
        assert(s.drop_last() =~= Seq::<char>::empty());
        assert(digits_value(s.drop_last()) == 0);
        assert(s.last() == digit_char(n));
    } else {
        lemma_numeral_digits(n / 10);
        assert(s.drop_last() =~= numeral(n / 10));
        assert(s.last() == digit_char(n % 10));
        assert forall|i: int| 0 <= i < s.len() implies is_digit(#[trigger] s[i]) by {
            if i < s.len() - 1 {
                assert(s[i] == numeral(n / 10)[i]);
            }
        }
    }
}

/// Read back as a weight field, the numeral of a weight gives that weight.
pub proof fn lemma_numeral_reads_back(weight: usize)
    ensures
        weight_value(numeral(weight as nat)) == Some(weight),
{
    lemma_numeral_digits(weight as nat);
    assert(is_digit(numeral(weight as nat)[0]));
}

/// Calls `ToString::to_string` on a weight. Trusted: the text is the decimal
/// numeral of the weight.
#[verifier::external_body]
pub(crate) fn weight_text(weight: usize) -> (s: String)
    ensures
        s@ == numeral(weight as nat),
{
    weight.to_string()
}

/// `line` is the record of `term` with `weight`: the term, the separator, and
/// the decimal numeral of the weight.
pub open spec fn is_record(
    line: Seq<char>,
    term: Seq<char>,
    separator: Seq<char>,
    weight: usize,
) -> bool {
    line == term + separator + numeral(weight as nat)
}

/// Writes one record.
pub fn record_line(term: &str, separator: &str, weight: usize) -> (line: String)
    ensures
        is_record(line@, term@, separator@, weight),
{
    let digits = weight_text(weight);
    let mut line: String = term.to_owned();
    line.append(separator);
    line.append(digits.as_str());
    line
}

/// How many lines were loaded: all of them, or those before the one that
/// gave the error.
pub open spec fn lines_loaded(r: Result<(), (usize, LoadError)>, all: int) -> int {
    match r {
        Ok(_) => all,
        Err(stop) => stop.0 as int,
    }
}

impl PruningRadixTrie {
    /// What loading the fields of one record does: a record of fewer than
    /// two fields is passed over; one without the indexed fields, with a
    /// weight that does not read, or with an empty term is an error and
    /// leaves the trie as it was; any other is inserted.
    pub open spec fn loaded(
        &self,
        before: Self,
        fields: Seq<Seq<char>>,
        term_index: usize,
        count_index: usize,
        outcome: Result<bool, LoadError>,
    ) -> bool {
        if fields.len() < 2 {
            outcome == Ok::<bool, LoadError>(false) && *self == before
        } else if term_index >= fields.len() || count_index >= fields.len() {
            outcome == Err::<bool, LoadError>(LoadError::MissingField) && *self == before
        } else if weight_value(fields[count_index as int]).is_none() {
            outcome == Err::<bool, LoadError>(LoadError::BadWeight) && *self == before
        } else if fields[term_index as int].len() == 0 {
            outcome == Err::<bool, LoadError>(LoadError::EmptyTerm) && *self == before
        } else {
            outcome == Ok::<bool, LoadError>(true) && self.is_insertion_into(
                before,
                fields[term_index as int],
                weight_value(fields[count_index as int]).unwrap(),
            )
        }
    }

    /// Loads a record that is already split into fields. Returns whether a
    /// term was inserted.
    pub fn load_fields(&mut self, fields: &Vec<String>, term_index: usize, count_index: usize) -> (outcome:
        Result<bool, LoadError>)
        requires
            old(self).wf(),
        ensures
            final(self).wf(),
            final(self).loaded(
                *old(self),
                Seq::new(fields@.len(), |i: int| fields@[i]@),
                term_index,
                count_index,
                outcome,
            ),
    {
        if fields.len() < 2 {
            return Ok(false);
        }
        if term_index >= fields.len() || count_index >= fields.len() {
            return Err(LoadError::MissingField);
        }
        let weight = match parse_weight(fields[count_index].as_str()) {
            Some(w) => w,
            None => {
                return Err(LoadError::BadWeight);
            },
        };
        let term = fields[term_index].as_str();
        if term.unicode_len() == 0 {
            return Err(LoadError::EmptyTerm);
        }
        self.add_completion(term, weight);
        Ok(true)
    }

    /// Loads one line of delimited text: splits it at `separator` and loads
    /// the fields.
    pub fn load_line(
        &mut self,
        line: &str,
        term_index: usize,
        count_index: usize,
        separator: &str,
    ) -> (outcome: Result<bool, LoadError>)
        requires
            old(self).wf(),
        ensures
            final(self).wf(),
            final(self).loaded(
                *old(self),
                split_fields(line@, separator@),
                term_index,
                count_index,
                outcome,
            ),
    {
        let fields = split_line(line, separator);
        assert(Seq::new(fields@.len(), |i: int| fields@[i]@) =~= split_fields(line@, separator@));
        self.load_fields(&fields, term_index, count_index)
    }

    /// `states` are the tries that loading the first `n` of `lines` leads
    /// through, the first before any line and each next one after one more
    /// line was loaded without error.
    pub open spec fn loaded_through(
        states: Seq<Self>,
        lines: Seq<String>,
        term_index: usize,
        count_index: usize,
        separator: Seq<char>,
        n: int,
    ) -> bool {
        &&& states.len() == n + 1
        &&& forall|j: int|
            0 < j <= n ==> exists|inserted: bool|
                (#[trigger] states[j]).loaded(
                    states[j - 1],
                    split_fields(lines[j - 1]@, separator),
                    term_index,
                    count_index,
                    Ok::<bool, LoadError>(inserted),
                )
    }

    /// Loads lines of delimited text in order and stops at the first that
    /// gives an error, which is returned with the index of its line. The
    /// lines before it stay loaded.
    pub fn load_lines(
        &mut self,
        lines: &Vec<String>,
        term_index: usize,
        count_index: usize,
        separator: &str,
    ) -> (r: Result<(), (usize, LoadError)>)
        requires
            old(self).wf(),
        ensures
            final(self).wf(),
            0 <= lines_loaded(r, lines@.len() as int) <= lines@.len(),
            exists|states: Seq<Self>|
                {
                    &&& #[trigger] Self::loaded_through(
                        states,
                        lines@,
                        term_index,
                        count_index,
                        separator@,
                        lines_loaded(r, lines@.len() as int),
                    )
                    &&& states[0] == *old(self)
                    &&& states[lines_loaded(r, lines@.len() as int)] == *final(self)
                },
            match r {
                Ok(_) => true,
                Err(stop) => stop.0 < lines@.len() && final(self).loaded(
                    *final(self),
                    split_fields(lines@[stop.0 as int]@, separator@),
                    term_index,
                    count_index,
                    Err::<bool, LoadError>(stop.1),
                ),
            },
    {
        let ghost mut states: Seq<Self> = Seq::empty().push(*self);
        let mut i: usize = 0;
        while i < lines.len()
            invariant
                self.wf(),
                i <= lines@.len(),
                Self::loaded_through(
                    states,
                    lines@,
                    term_index,
                    count_index,
                    separator@,
                    i as int,
                ),
                states[0] == *old(self),
                states[i as int] == *self,
            decreases lines@.len() - i,
        {
            let ghost before = *self;
            let outcome = self.load_line(lines[i].as_str(), term_index, count_index, separator);
            match outcome {
                Ok(inserted) => {
                    proof {
                        let longer = states.push(*self);
                        assert forall|j: int| 0 < j <= i + 1 implies exists|inserted: bool|
                            (#[trigger] longer[j]).loaded(
                                longer[j - 1],
                                split_fields(lines@[j - 1]@, separator@),
                                term_index,
                                count_index,
                                Ok::<bool, LoadError>(inserted),
                            ) by {
                            if j <= i {
                                assert(longer[j] == states[j]);
                                assert(longer[j - 1] == states[j - 1]);
                                let was = choose|was: bool|
                                    states[j].loaded(
                                        states[j - 1],
                                        split_fields(lines@[j - 1]@, separator@),
                                        term_index,
                                        count_index,
                                        Ok::<bool, LoadError>(was),
                                    );
                                assert(longer[j].loaded(
                                    longer[j - 1],
                                    split_fields(lines@[j - 1]@, separator@),
                                    term_index,
                                    count_index,
                                    Ok::<bool, LoadError>(was),
                                ));
                            } else {
                                assert(longer[j] == *self);
                                assert(longer[j - 1] == before);
                                assert(longer[j].loaded(
                                    longer[j - 1],
                                    split_fields(lines@[j - 1]@, separator@),
                                    term_index,
                                    count_index,
                                    Ok::<bool, LoadError>(inserted),
                                ));
                            }
                        }
                        states = longer;
                    }
                },
                Err(e) => {
                    proof {
                        assert(*self == before);
                        assert(states[i as int] == *self);
                        assert(Self::loaded_through(
                            states,
                            lines@,
                            term_index,
                            count_index,
                            separator@,
                            i as int,
                        ));
                    }
                    return Err((i, e));
                },
            }
            i = i + 1;
        }
        proof {
            assert(states[lines@.len() as int] == *self);
            assert(Self::loaded_through(
                states,
                lines@,
                term_index,
                count_index,
                separator@,
                lines@.len() as int,
            ));
        }
        Ok(())
    }

    /// `listing` holds the stored terms with their weights: every stored
    /// term once and nothing else, the heavier first, and equally heavy ones
    /// by term.
    pub open spec fn is_listing(&self, listing: Seq<(Seq<char>, usize)>) -> bool {
        &&& forall|i: int| 0 <= i < listing.len() ==> self.holds(#[trigger] listing[i].0, listing[i].1)
        &&& forall|i: int, j: int| 0 <= i < j < listing.len() ==> rank_before(listing[i], listing[j])
        &&& forall|i: int, j: int| 0 <= i < j < listing.len() ==> listing[i].0 != listing[j].0
        &&& forall|t: Seq<char>, w: usize|
            self.holds(t, w) ==> exists|i: int| 0 <= i < listing.len() && #[trigger] listing[i] == (t, w)
    }

    /// `lines` are the records of `listing`, in its order.
    pub open spec fn records_of(
        lines: Seq<String>,
        separator: Seq<char>,
        listing: Seq<(Seq<char>, usize)>,
    ) -> bool {
        &&& lines.len() == listing.len()
        &&& forall|i: int|
            0 <= i < lines.len() ==> is_record(
                #[trigger] lines[i]@,
                listing[i].0,
                separator,
                listing[i].1,
            )
    }

    /// Every stored term with its weight, once, the heavier first and equally
    /// heavy ones by term: what an unbounded lookup of the empty prefix gives.
    pub fn sorted_entries<'a>(&'a self) -> (found: Vec<Completion<'a>>)
        requires
            self.wf(),
        ensures
            self.is_lookup(Seq::empty(), None, found@),
            self.is_listing(Seq::new(found@.len(), |i: int| entry(found@[i]))),
            found@.len() == self.count(),
    {
        let ranked_list = self.lookup_completions("", None);
        proof {
            reveal_strlit("");
            assert(""@ =~= Seq::<char>::empty());
            assert forall|i: int, j: int| 0 <= i < j < ranked_list@.len() implies *ranked_list@[i].count
                >= *ranked_list@[j].count by {
                assert(rank_before(entry(ranked_list@[i]), entry(ranked_list@[j])));
            }
        }
        let found = heaviest_first(ranked_list);
        proof {
            let listing = Seq::new(found@.len(), |i: int| entry(found@[i]));
            assert forall|i: int, j: int| 0 <= i < j < listing.len() implies listing[i].0
                != listing[j].0 by {
                assert(rank_before(entry(found@[i]), entry(found@[j])));
                if listing[i].0 == listing[j].0 {
                    self.lemma_holds_unique(listing[i].0, listing[i].1, listing[j].1);
                    crate::completion::lemma_rank_is_strict(listing[i]);
                }
            }
            assert forall|t: Seq<char>, w: usize| self.holds(t, w) implies exists|i: int|
                0 <= i < listing.len() && #[trigger] listing[i] == (t, w) by {
                assert(t.subrange(0, 0) =~= Seq::<char>::empty());
                assert(covered(found@, None, t, w));
                let j = choose|j: int| 0 <= j < found@.len() && entry(#[trigger] found@[j]) == (t, w);
                assert(listing[j] == (t, w));
            }
            self.lemma_count_is_number_of_terms(listing);
        }
        found
    }

    /// The dictionary as lines of delimited text: one record for every
    /// stored term and no other line, the heavier first and equally heavy
    /// ones by term.
    pub fn save_lines(&self, separator: &str) -> (lines: Vec<String>)
        requires
            self.wf(),
        ensures
            lines@.len() == self.count(),
            exists|listing: Seq<(Seq<char>, usize)>|
                self.is_listing(listing) && Self::records_of(lines@, separator@, listing),
    {
        let found = self.sorted_entries();
        let ghost listing = Seq::new(found@.len(), |i: int| entry(found@[i]));
        let mut lines: Vec<String> = Vec::new();
        let mut i: usize = 0;
        while i < found.len()
            invariant
                i <= found@.len(),
                lines@.len() == i,
                listing == Seq::new(found@.len(), |i: int| entry(found@[i])),
                forall|j: int|
                    0 <= j < i ==> is_record(
                        #[trigger] lines@[j]@,
                        listing[j].0,
                        separator@,
                        listing[j].1,
                    ),
            decreases found@.len() - i,
        {
            let line = record_line(key_as_str(&found[i].term), separator, *found[i].count);
            lines.push(line);
            i = i + 1;
        }
        assert(Self::records_of(lines@, separator@, listing));
        lines
    }
}

} // verus!
