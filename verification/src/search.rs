//! The catalog search: what is asked for, which page is shown, and what a fetch
//! came to.
use crate::satellite;
use crate::satellite::TleSet;
use crate::text;
use crate::tle_store;
use crate::tle_store::{StoredTle, TleFilter, TlePage};
use vstd::prelude::*;

verus! {

/// RCS sizes that can be asked for; the first is "any".
pub const RCS_OPTIONS: [&'static str; 4] = ["(any)", "Small", "Medium", "Large"];

/// The object types that can be fetched: as they are shown, and as the service
/// writes them. There is no "any": a type must be fetched before it is searched.
pub const OBJECT_TYPE_CHOICES: [(&'static str, &'static str); 4] = [
    ("Payload", "PAYLOAD"),
    ("Rocket Body", "ROCKET BODY"),
    ("Debris", "DEBRIS"),
    ("Unknown", "UNKNOWN"),
];

pub const SEARCH_PER_PAGE: usize = 10;

/// The state of the search panel.
pub struct SatSearchState {
    /// Index into [`OBJECT_TYPE_CHOICES`].
    pub object_type: usize,
    pub object_name: String,
    pub norad_cat_id: String,
    /// Index into [`RCS_OPTIONS`].
    pub rcs_size: usize,
    pub site: String,
    pub country_code: String,
    /// `yyyy-mm-dd`; keeps results launched before this.
    pub launch_date: String,
    /// `yyyy-mm-dd`; keeps results decayed before this.
    pub decay_date: String,
    /// Whether a fetch is running.
    pub fetching: bool,
    /// Object types that have at least one row stored.
    pub fetched_types: Vec<String>,
    pub results: Vec<StoredTle>,
    pub total: usize,
    pub page: usize,
    pub error: Option<String>,
    pub last_filter_key: String,
}

impl Default for SatSearchState {
    fn default() -> (result: Self)
        ensures
            result.wf(),
            result.object_type == 0,
            result.filters_are_clear(),
            !result.fetching,
            result.fetched_types@.len() == 0,
            result.results@.len() == 0,
            result.total == 0,
            result.page == 0,
            result.error is None,
            result.last_filter_key@.len() == 0,
    {
        SatSearchState {
            object_type: 0,
            object_name: String::new(),
            norad_cat_id: String::new(),
            rcs_size: 0,
            site: String::new(),
            country_code: String::new(),
            launch_date: String::new(),
            decay_date: String::new(),
            fetching: false,
            fetched_types: Vec::new(),
            results: Vec::new(),
            total: 0,
            page: 0,
            error: None,
            last_filter_key: String::new(),
        }
    }
}

/// A field of a filter for what was typed: nothing, where it is blank.
pub open spec fn typed(field: Option<String>, value: Seq<char>) -> bool {
    if text::trim(value).len() == 0 {
        field is None
    } else {
        field is Some && field->0@ == text::trim(value)
    }
}

fn typed_field(value: &str) -> (result: Option<String>)
    ensures
        typed(result, value@),
{
    if text::is_blank(value) {
        None
    } else {
        Some(text::trimmed(value))
    }
}

/// What a fetch sent back: a count of rows, a message, or nothing ever.
pub enum FetchReply {
    Done(usize),
    Failed(String),
    Pending,
    Lost,
}

/// What a page that came back asks for next.
pub enum PageStep {
    /// The page is shown.
    Shown,
    /// The page lies behind the last one: the last one is asked for.
    Again(usize),
}

impl SatSearchState {
    /// That the two choices are choices that there are.
    pub open spec fn wf(self) -> bool {
        self.object_type < 4 && self.rcs_size < 4
    }

    pub open spec fn filters_are_clear(self) -> bool {
        &&& self.object_name@.len() == 0
        &&& self.norad_cat_id@.len() == 0
        &&& self.rcs_size == 0
        &&& self.site@.len() == 0
        &&& self.country_code@.len() == 0
        &&& self.launch_date@.len() == 0
        &&& self.decay_date@.len() == 0
    }

    pub open spec fn chosen_type(self) -> Seq<char> {
        OBJECT_TYPE_CHOICES[self.object_type as int].1@
    }

    /// The object type currently selected, as the service writes it.
    pub fn selected_type(&self) -> (result: &'static str)
        requires
            self.wf(),
        ensures
            result@ == self.chosen_type(),
    {
        OBJECT_TYPE_CHOICES[self.object_type].1
    }

    pub open spec fn fetched(self) -> bool {
        text::texts(self.fetched_types@).contains(self.chosen_type())
    }

    /// Whether the selected type has been fetched, so that it can be searched.
    pub fn is_selected_type_fetched(&self) -> (result: bool)
        requires
            self.wf(),
        ensures
            result == self.fetched(),
    {
        let wanted: &'static str = self.selected_type();
        let mut at: usize = 0;
        while at < self.fetched_types.len()
            invariant
                at <= self.fetched_types.len(),
                wanted@ == self.chosen_type(),
                forall|i: int| 0 <= i < at ==> text::texts(self.fetched_types@)[i] != wanted@,
            decreases self.fetched_types.len() - at,
        {
            if text::same(self.fetched_types[at].as_str(), wanted) {
                assert(text::texts(self.fetched_types@)[at as int] == wanted@);
                return true;
            }
            at = at + 1;
        }
        false
    }

    /// The filter for the search: always scoped to the selected object type, plus
    /// whichever other fields are filled in.
    pub fn build_filter(&self) -> (result: TleFilter)
        requires
            self.wf(),
        ensures
            result.object_type is Some && result.object_type->0@ == self.chosen_type(),
            typed(result.object_name, self.object_name@),
            typed(result.norad_cat_id, self.norad_cat_id@),
            if self.rcs_size == 0 {
                result.rcs_size is None
            } else {
                result.rcs_size is Some && result.rcs_size->0@ == text::uppercase(
                    RCS_OPTIONS[self.rcs_size as int]@,
                )
            },
            typed(result.site, self.site@),
            typed(result.country_code, self.country_code@),
            result.launch_date_from is None,
            result.decay_date_from is None,
            typed(result.launch_date_before, self.launch_date@),
            typed(result.decay_date_before, self.decay_date@),
    {
        TleFilter {
            object_name: typed_field(self.object_name.as_str()),
            norad_cat_id: typed_field(self.norad_cat_id.as_str()),
            rcs_size: if self.rcs_size == 0 {
                None
            } else {
                Some(text::to_uppercase(RCS_OPTIONS[self.rcs_size]))
            },
            object_type: Some(self.selected_type().to_owned()),
            site: typed_field(self.site.as_str()),
            country_code: typed_field(self.country_code.as_str()),
            launch_date_from: None,
            decay_date_from: None,
            launch_date_before: typed_field(self.launch_date.as_str()),
            decay_date_before: typed_field(self.decay_date.as_str()),
        }
    }

    pub open spec fn key(self) -> Seq<char> {
        text::decimal(self.object_type as nat) + "|"@ + text::trim(self.object_name@) + "|"@
            + text::trim(self.norad_cat_id@) + "|"@ + text::decimal(self.rcs_size as nat) + "|"@
            + text::trim(self.site@) + "|"@ + text::trim(self.country_code@) + "|"@ + text::trim(
            self.launch_date@,
        ) + "|"@ + text::trim(self.decay_date@)
    }

    /// What tells one search from another.
    pub fn filter_key(&self) -> (result: String)
        ensures
            result@ == self.key(),
    {
        let mut key: String = text::print(self.object_type as u64);
        key.append("|");
        key.append(text::trimmed(self.object_name.as_str()).as_str());
        key.append("|");
        key.append(text::trimmed(self.norad_cat_id.as_str()).as_str());
        key.append("|");
        key.append(text::print(self.rcs_size as u64).as_str());
        key.append("|");
        key.append(text::trimmed(self.site.as_str()).as_str());
        key.append("|");
        key.append(text::trimmed(self.country_code.as_str()).as_str());
        key.append("|");
        key.append(text::trimmed(self.launch_date.as_str()).as_str());
        key.append("|");
        key.append(text::trimmed(self.decay_date.as_str()).as_str());
        key
    }

    pub open spec fn pages(self) -> int {
        tle_store::pages(self.total as int, SEARCH_PER_PAGE as int)
    }

    pub fn page_count(&self) -> (result: usize)
        ensures
            result == self.pages(),
    {
        tle_store::count_pages(self.total, SEARCH_PER_PAGE)
    }

    /// Notes what is asked for now. Whether the search has to be run again: it
    /// has, from the first page on, where anything was changed.
    pub fn asks_anew(&mut self) -> (result: bool)
        ensures
            result == (old(self).key() != old(self).last_filter_key@),
            final(self).last_filter_key@ == old(self).key(),
            *final(self) == (SatSearchState {
                page: (if result {
                    0
                } else {
                    old(self).page
                }),
                last_filter_key: final(self).last_filter_key,
                ..*old(self)
            }),
    {
        let key: String = self.filter_key();
        if text::same(key.as_str(), self.last_filter_key.as_str()) {
            return false;
        }
        self.last_filter_key = key;
        self.page = 0;
        true
    }

    /// Empties every filter; the object type stays.
    pub fn clear_filters(&mut self)
        ensures
            final(self).filters_are_clear(),
            final(self).object_type == old(self).object_type,
            final(self).fetched_types == old(self).fetched_types,
            final(self).results == old(self).results,
            final(self).total == old(self).total,
            final(self).page == old(self).page,
            final(self).error == old(self).error,
            final(self).fetching == old(self).fetching,
            final(self).last_filter_key == old(self).last_filter_key,
    {
        self.object_name = String::new();
        self.norad_cat_id = String::new();
        self.rcs_size = 0;
        self.site = String::new();
        self.country_code = String::new();
        self.launch_date = String::new();
        self.decay_date = String::new();
    }

    /// Turns a page back or forward, where there is one. Whether there was.
    pub fn turn_page(&mut self, forward: bool) -> (turned: bool)
        ensures
            turned == (if forward {
                old(self).page + 1 < old(self).pages()
            } else {
                old(self).page > 0
            }),
            *final(self) == (SatSearchState { page: final(self).page, ..*old(self) }),
            final(self).page == old(self).page + (if !turned {
                0int
            } else if forward {
                1
            } else {
                -1
            }),
    {
        if forward {
            let count: usize = self.page_count();
            if count > 0 && self.page < count - 1 {
                self.page = self.page + 1;
                true
            } else {
                false
            }
        } else if self.page > 0 {
            self.page = self.page - 1;
            true
        } else {
            false
        }
    }

    /// The last page of `total` rows.
    pub open spec fn last_page(total: int) -> int {
        if total <= 0 {
            0
        } else {
            (total - 1) / 10
        }
    }

    /// Takes in a page that came back. A narrowed filter can leave the page
    /// behind the last one: the last one is then asked for instead, so that the
    /// list is never blank where there are matches.
    pub fn page_arrived(&mut self, page: &TlePage) -> (step: PageStep)
        ensures
            ({
                let last = SatSearchState::last_page(page.total as int);
                if page.rows@.len() == 0 && old(self).page > last {
                    &&& step == PageStep::Again(last as usize)
                    &&& *final(self) == (SatSearchState { page: last as usize, ..*old(self) })
                } else {
                    &&& step == PageStep::Shown
                    &&& *final(self) == *old(self)
                }
            }),
    {
        let last: usize = if page.total == 0 {
            0
        } else {
            (page.total - 1) / SEARCH_PER_PAGE
        };
        if page.rows.len() == 0 && self.page > last {
            self.page = last;
            PageStep::Again(last)
        } else {
            PageStep::Shown
        }
    }

    /// Shows a page.
    pub fn show_page(&mut self, page: TlePage)
        ensures
            *final(self) == (SatSearchState {
                results: page.rows,
                total: page.total,
                error: None,
                ..*old(self)
            }),
    {
        self.results = page.rows;
        self.total = page.total;
        self.error = None;
    }

    /// Shows nothing: the selected type has not been fetched.
    pub fn show_nothing(&mut self)
        ensures
            final(self).results@.len() == 0,
            *final(self) == (SatSearchState {
                results: final(self).results,
                total: 0,
                ..*old(self)
            }),
    {
        self.results = Vec::new();
        self.total = 0;
    }

    /// Starts a fetch, unless one is running. The status line, where one was
    /// started.
    pub fn begin_fetch(&mut self) -> (status: Option<String>)
        requires
            old(self).wf(),
        ensures
            *final(self) == (SatSearchState { fetching: true, ..*old(self) }),
            status is None <==> old(self).fetching,
            status matches Some(text) ==> text@ == "Fetching "@ + old(self).chosen_type()
                + " from Space-Track..."@,
    {
        if self.fetching {
            return None;
        }
        self.fetching = true;
        let mut status: String = "Fetching ".to_owned();
        status.append(self.selected_type());
        status.append(" from Space-Track...");
        Some(status)
    }

    /// Takes in what a fetch sent back. The status line, where rows arrived: the
    /// search then starts over, on the types that are stored now.
    pub fn fetch_replied(&mut self, reply: FetchReply, fetched_types: Vec<String>) -> (status:
        Option<String>)
        requires
            old(self).wf(),
        ensures
            match reply {
                FetchReply::Done(count) => {
                    &&& final(self).last_filter_key@.len() == 0
                    &&& *final(self) == (SatSearchState {
                        fetching: false,
                        fetched_types,
                        page: 0,
                        last_filter_key: final(self).last_filter_key,
                        error: None,
                        ..*old(self)
                    })
                    &&& status is Some
                    &&& status->0@ == "Fetched "@ + text::decimal(count as nat) + " "@ + old(
                        self,
                    ).chosen_type() + " object(s) into tle_data.db"@
                },
                FetchReply::Failed(message) => {
                    &&& final(self).error is Some
                    &&& final(self).error->0@ == "Space-Track: "@ + message@
                    &&& *final(self) == (SatSearchState {
                        fetching: false,
                        error: final(self).error,
                        ..*old(self)
                    })
                    &&& status is None
                },
                FetchReply::Pending => *final(self) == *old(self) && status is None,
                FetchReply::Lost => {
                    &&& final(self).error is Some
                    &&& final(self).error->0@ == "fetch ended without a result"@
                    &&& *final(self) == (SatSearchState {
                        fetching: false,
                        error: final(self).error,
                        ..*old(self)
                    })
                    &&& status is None
                },
            },
    {
        match reply {
            FetchReply::Done(count) => {
                self.fetching = false;
                self.fetched_types = fetched_types;
                self.page = 0;
                self.last_filter_key = String::new();
                self.error = None;
                let mut status: String = "Fetched ".to_owned();
                status.append(text::print(count as u64).as_str());
                status.append(" ");
                status.append(self.selected_type());
                status.append(" object(s) into tle_data.db");
                Some(status)
            },
            FetchReply::Failed(message) => {
                self.fetching = false;
                let mut error: String = "Space-Track: ".to_owned();
                error.append(message.as_str());
                self.error = Some(error);
                None
            },
            FetchReply::Pending => None,
            FetchReply::Lost => {
                self.fetching = false;
                self.error = Some("fetch ended without a result".to_owned());
                None
            },
        }
    }
}

/// However far back the page had been, the page that is asked for again holds a
/// match, where there are matches.
pub proof fn law_the_last_page_is_not_blank(total: int)
    requires
        total > 0,
    ensures
        0 <= SatSearchState::last_page(total) * 10 < total,
        SatSearchState::last_page(total) + 1 == tle_store::pages(total, 10),
{
    let last = SatSearchState::last_page(total);
    assert(last * 10 <= total - 1);
}

/// The NORAD catalog number in field 2 of a line 1, if it parses.
pub fn catalog_of(line1: &str) -> (result: Option<u64>)
    ensures
        match satellite::catalog(text::trim(line1@)) {
            Ok(number) => result == Some(number as u64),
            Err(_) => result is None,
        },
{
    let line1: String = text::trimmed(line1);
    match TleSet::new(line1.as_str(), "").catalog_number() {
        Ok(number) => Some(number),
        Err(_) => None,
    }
}

/// `"-"` for a blank catalog field, the value itself otherwise.
pub fn dash_if_blank(value: &str) -> (result: &str)
    ensures
        result@ == (if text::trim(value@).len() == 0 {
            "-"@
        } else {
            value@
        }),
{
    if text::is_blank(value) {
        "-"
    } else {
        value
    }
}

/// What a fetch comes to: whatever fails first, in words.
pub fn run_type_fetch(
    credentials: Result<(), String>,
    store: Result<(), String>,
    fetched: Result<usize, String>,
) -> (result: Result<usize, String>)
    ensures
        match (credentials, store) {
            (Err(message), _) => result == Err::<usize, String>(message),
            (Ok(_), Err(message)) => result == Err::<usize, String>(message),
            (Ok(_), Ok(_)) => result == fetched,
        },
{
    match credentials {
        Err(message) => Err(message),
        Ok(_) => match store {
            Err(message) => Err(message),
            Ok(_) => fetched,
        },
    }
}

} // verus!
