//! The bookkeeping of the browser's tabs.
//!
//! A tab is a content web view labelled `tab-N`; only the active tab shows.
//! This state records which tabs there are and in which order, which one is
//! active, and which URL each shows. Each operation here is the state change of
//! one step of the browser; showing, hiding and creating the web views, and
//! telling the toolbar, are done around these steps.
use vstd::prelude::*;

use crate::chars::push_char;
use crate::strmap::{map_get, map_insert, map_remove, StrMap};

verus! {

/// The page a new tab opens.
pub const NEW_TAB_URL: &'static str = "about:blank";

/// The state of all tabs.
pub struct TabsState {
    /// the number in the last label given out (`tab-1`, `tab-2`, ...); labels are never reused
    counter: usize,
    /// the label of the active tab
    active: String,
    /// the tabs in the order of the tab bar
    order: Vec<String>,
    /// the URL each tab shows
    urls: StrMap<String>,
}

/// One tab, as the toolbar is told about it.
pub struct TabInfo {
    pub label: String,
    pub url: String,
    pub active: bool,
}

/// The state of all tabs, as a mathematical value.
pub struct SpecTabs {
    pub counter: nat,
    pub active: Seq<char>,
    pub order: Seq<Seq<char>>,
    pub urls: Seq<(Seq<char>, Seq<char>)>,
}

pub struct SpecTabInfo {
    pub label: Seq<char>,
    pub url: Seq<char>,
    pub active: bool,
}

impl View for TabsState {
    type V = SpecTabs;

    closed spec fn view(&self) -> SpecTabs {
        SpecTabs {
            counter: self.counter as nat,
            active: self.active@,
            order: self.order@.map_values(|l: String| l@),
            urls: self.urls@,
        }
    }
}

impl View for TabInfo {
    type V = SpecTabInfo;

    open spec fn view(&self) -> SpecTabInfo {
        SpecTabInfo { label: self.label@, url: self.url@, active: self.active }
    }
}

/// A decimal digit.
pub open spec fn digit_char(d: nat) -> char {
    if d == 0 {
        '0'
    } else if d == 1 {
        '1'
    } else if d == 2 {
        '2'
    } else if d == 3 {
        '3'
    } else if d == 4 {
        '4'
    } else if d == 5 {
        '5'
    } else if d == 6 {
        '6'
    } else if d == 7 {
        '7'
    } else if d == 8 {
        '8'
    } else {
        '9'
    }
}

/// `n` written in decimal, as `format!("{}", n)` writes it.
pub open spec fn decimal(n: nat) -> Seq<char>
    decreases n,
{
    if n < 10 {
        seq![digit_char(n)]
    } else {
        decimal(n / 10).push(digit_char(n % 10))
    }
}

/// The label of the `k`-th tab ever opened.
pub open spec fn tab_label(k: nat) -> Seq<char> {
    "tab-"@ + decimal(k)
}

pub open spec fn initial_tabs() -> SpecTabs {
    SpecTabs { counter: 0, active: Seq::empty(), order: Seq::empty(), urls: Seq::empty() }
}

/// The tab list that the toolbar shows: each tab in order, its URL (empty if
/// unknown), and whether it is the active one.
pub open spec fn tab_list_spec(st: SpecTabs) -> Seq<SpecTabInfo> {
    Seq::new(
        st.order.len(),
        |i: int|
            SpecTabInfo {
                label: st.order[i],
                url: match map_get(st.urls, st.order[i]) {
                    Some(u) => u,
                    None => Seq::empty(),
                },
                active: st.order[i] == st.active,
            },
    )
}

/// Giving out the next label.
pub open spec fn next_label_spec(st: SpecTabs) -> SpecTabs {
    SpecTabs { counter: st.counter + 1, ..st }
}

/// A new tab with that label and URL goes to the end and becomes active.
pub open spec fn register_spec(st: SpecTabs, label: Seq<char>, url: Seq<char>) -> SpecTabs {
    SpecTabs {
        counter: st.counter,
        active: label,
        order: st.order.push(label),
        urls: map_insert(st.urls, label, url),
    }
}

/// Switching to a tab: refused for a label that is not a tab.
pub open spec fn switch_spec(st: SpecTabs, label: Seq<char>) -> Result<SpecTabs, Seq<char>> {
    if st.order.contains(label) {
        Ok(SpecTabs { active: label, ..st })
    } else {
        Err("unknown tab: "@ + label)
    }
}

/// Where `x` first occurs among the first `n` labels.
pub open spec fn first_index(s: Seq<Seq<char>>, x: Seq<char>, n: int) -> Option<int>
    decreases n,
{
    if n <= 0 {
        None
    } else {
        match first_index(s, x, n - 1) {
            Some(i) => Some(i),
            None => if s[n - 1] == x {
                Some(n - 1)
            } else {
                None
            },
        }
    }
}

pub proof fn lemma_first_index(s: Seq<Seq<char>>, x: Seq<char>, n: int)
    requires
        0 <= n <= s.len(),
    ensures
        first_index(s, x, n) matches Some(i) ==> 0 <= i < n && s[i] == x && forall|j: int|
            0 <= j < i ==> s[j] != x,
        first_index(s, x, n) is None ==> forall|j: int| 0 <= j < n ==> s[j] != x,
    decreases n,
{
    if n > 0 {
        lemma_first_index(s, x, n - 1);
    }
}

/// Closing a tab: it leaves the order and its URL is forgotten; the active label
/// is not changed here. Gives whether it was the active tab and its neighbour:
/// the tab that now stands where it stood, or the new last tab if it was last.
/// Refused for a label that is not a tab.
pub open spec fn close_spec(st: SpecTabs, label: Seq<char>) -> Result<
    (SpecTabs, bool, Option<Seq<char>>),
    Seq<char>,
> {
    if let Some(i) = first_index(st.order, label, st.order.len() as int) {
        let order = st.order.remove(i);
        Ok(
            (
                SpecTabs { order, urls: map_remove(st.urls, label), ..st },
                st.active == label,
                if i < order.len() {
                    Some(order[i])
                } else if order.len() > 0 {
                    Some(order.last())
                } else {
                    None
                },
            ),
        )
    } else {
        Err("unknown tab: "@ + label)
    }
}

/// A tab finished loading a page: its URL is recorded.
pub open spec fn record_url_spec(st: SpecTabs, label: Seq<char>, url: Seq<char>) -> SpecTabs {
    SpecTabs { urls: map_insert(st.urls, label, url), ..st }
}

/// What is shown after a tab is closed.
pub enum AfterClose {
    /// the closed tab was not the active one: the active tab stays
    Stay,
    /// the active tab was closed: this tab, its neighbour, is shown
    Show(String),
    /// the last tab was closed: a new blank tab is opened
    OpenBlank,
}

pub enum SpecAfterClose {
    Stay,
    Show(Seq<char>),
    OpenBlank,
}

impl View for AfterClose {
    type V = SpecAfterClose;

    open spec fn view(&self) -> SpecAfterClose {
        match self {
            AfterClose::Stay => SpecAfterClose::Stay,
            AfterClose::Show(l) => SpecAfterClose::Show(l@),
            AfterClose::OpenBlank => SpecAfterClose::OpenBlank,
        }
    }
}

/// The tab shown after a close, from whether the closed tab was active and its
/// neighbour among the tabs that remain.
pub open spec fn after_close_spec(was_active: bool, next: Option<Seq<char>>) -> SpecAfterClose {
    if !was_active {
        SpecAfterClose::Stay
    } else {
        match next {
            Some(l) => SpecAfterClose::Show(l),
            None => SpecAfterClose::OpenBlank,
        }
    }
}

fn digit(d: usize) -> (c: char)
    requires
        d < 10,
    ensures
        c == digit_char(d as nat),
{
    if d == 0 {
        '0'
    } else if d == 1 {
        '1'
    } else if d == 2 {
        '2'
    } else if d == 3 {
        '3'
    } else if d == 4 {
        '4'
    } else if d == 5 {
        '5'
    } else if d == 6 {
        '6'
    } else if d == 7 {
        '7'
    } else if d == 8 {
        '8'
    } else {
        '9'
    }
}

fn push_decimal(out: &mut String, n: usize)
    ensures
        final(out)@ == old(out)@ + decimal(n as nat),
    decreases n,
{
    if n >= 10 {
        push_decimal(out, n / 10);
    }
    push_char(out, digit(n % 10));
    assert(final(out)@ =~= old(out)@ + decimal(n as nat));
}

fn string_eq(a: &String, b: &String) -> (r: bool)
    ensures
        r == (a@ == b@),
{
    *a == *b
}

impl Default for TabsState {
    fn default() -> (r: Self)
        ensures
            r@ == initial_tabs(),
    {
        let st = TabsState {
            counter: 0,
            active: String::new(),
            order: Vec::new(),
            urls: StrMap::new(),
        };
        assert(st@.order =~= Seq::<Seq<char>>::empty());
        st
    }
}

impl TabsState {
    /// Whether a label can still be given out (the counter has not reached its limit).
    pub fn can_open(&self) -> (r: bool)
        ensures
            r == (self@.counter < usize::MAX),
    {
        self.counter < usize::MAX
    }

    /// The label of the active tab.
    pub fn active_label(&self) -> (r: &String)
        ensures
            r@ == self@.active,
    {
        &self.active
    }

    /// The labels of the tabs, in tab bar order.
    pub fn labels(&self) -> (r: &Vec<String>)
        ensures
            r@.map_values(|l: String| l@) == self@.order,
    {
        &self.order
    }

    /// The tab list for the toolbar.
    pub fn tab_list(&self) -> (r: Vec<TabInfo>)
        ensures
            r@.map_values(|t: TabInfo| t@) == tab_list_spec(self@),
    {
        let ghost want = tab_list_spec(self@);
        let mut out: Vec<TabInfo> = Vec::new();
        let mut i: usize = 0;
        while i < self.order.len()
            invariant
                i <= self.order@.len(),
                want == tab_list_spec(self@),
                want.len() == self.order@.len(),
                out@.map_values(|t: TabInfo| t@) == want.take(i as int),
            decreases self.order@.len() - i,
        {
            let label = &self.order[i];
            assert(self@.order[i as int] == label@);
            let url = match self.urls.get(label.as_str()) {
                Some(u) => u.clone(),
                None => String::new(),
            };
            let active = string_eq(label, &self.active);
            let info = TabInfo { label: label.clone(), url, active };
            assert(info@.url == want[i as int].url);
            assert(info@ == want[i as int]);
            let ghost before = out@.map_values(|t: TabInfo| t@);
            let ghost iv = info@;
            out.push(info);
            assert(out@.map_values(|t: TabInfo| t@) =~= before.push(iv));
            assert(want.take(i + 1) =~= want.take(i as int).push(iv));
            i = i + 1;
        }
        assert(want.take(want.len() as int) =~= want);
        out
    }

    /// Gives out the next tab label (`tab-N`). The number is used up even if the
    /// tab is never opened.
    pub fn next_label(&mut self) -> (label: String)
        requires
            old(self)@.counter < usize::MAX,
        ensures
            final(self)@ == next_label_spec(old(self)@),
            label@ == tab_label(final(self)@.counter),
    {
        self.counter = self.counter + 1;
        let mut label = "tab-".to_owned();
        push_decimal(&mut label, self.counter);
        label
    }

    /// Adds an opened tab at the end of the tab bar and makes it active.
    pub fn register_tab(&mut self, label: String, url: String)
        ensures
            final(self)@ == register_spec(old(self)@, label@, url@),
    {
        let ghost lv = label@;
        self.urls.insert(label.clone(), url);
        self.order.push(label.clone());
        self.active = label;
        assert(self@.order =~= old(self)@.order.push(lv));
    }

    /// Makes a tab the active one.
    pub fn switch_to(&mut self, label: String) -> (r: Result<(), String>)
        ensures
            match switch_spec(old(self)@, label@) {
                Ok(st) => r is Ok && final(self)@ == st,
                Err(e) => r matches Err(m) && m@ == e && final(self)@ == old(self)@,
            },
    {
        if self.position(&label).is_none() {
            let mut msg = "unknown tab: ".to_owned();
            msg.append(label.as_str());
            return Err(msg);
        }
        self.active = label;
        Ok(())
    }

    fn position(&self, label: &String) -> (r: Option<usize>)
        ensures
            match r {
                Some(i) => i < self@.order.len() && first_index(
                    self@.order,
                    label@,
                    self@.order.len() as int,
                ) == Some(i as int) && self@.order.contains(label@),
                None => !self@.order.contains(label@) && first_index(
                    self@.order,
                    label@,
                    self@.order.len() as int,
                ) is None,
            },
    {
        let ghost o = self@.order;
        let mut i: usize = 0;
        while i < self.order.len()
            invariant
                i <= self.order@.len(),
                o == self@.order,
                o.len() == self.order@.len(),
                forall|k: int| 0 <= k < i ==> o[k] != label@,
            decreases self.order@.len() - i,
        {
            assert(o[i as int] == self.order@[i as int]@);
            if string_eq(&self.order[i], label) {
                proof {
                    assert(o[i as int] == label@);
                    assert(o.contains(label@));
                    lemma_first_index(o, label@, o.len() as int);
                    if let Some(j) = first_index(o, label@, o.len() as int) {
                        if j < i {
                            assert(o[j] != label@);
                        }
                    }
                }
                return Some(i);
            }
            i = i + 1;
        }
        proof {
            lemma_first_index(o, label@, o.len() as int);
        }
        None
    }

    /// Closes a tab, and says what is shown next: nothing changes if it was not
    /// the active tab; else its neighbour is shown (the tab that now stands where
    /// it stood, or the new last tab if it was last), or a new blank tab is
    /// opened if none remains.
    pub fn close_tab(&mut self, label: &String) -> (r: Result<AfterClose, String>)
        ensures
            match close_spec(old(self)@, label@) {
                Ok((st, was_active, next)) => r matches Ok(a) && final(self)@ == st && a@
                    == after_close_spec(was_active, next),
                Err(e) => r matches Err(m) && m@ == e && final(self)@ == old(self)@,
            },
    {
        let index = match self.position(label) {
            Some(i) => i,
            None => {
                let mut msg = "unknown tab: ".to_owned();
                msg.append(label.as_str());
                return Err(msg);
            },
        };
        let ghost o = self@.order;
        self.order.remove(index);
        assert(self@.order =~= o.remove(index as int));
        self.urls.remove(label);
        let was_active = string_eq(&self.active, label);
        if !was_active {
            return Ok(AfterClose::Stay);
        }
        if index < self.order.len() {
            let next = &self.order[index];
            assert(next@ == self@.order[index as int]);
            Ok(AfterClose::Show(next.clone()))
        } else if self.order.len() > 0 {
            let last = &self.order[self.order.len() - 1];
            assert(last@ == self@.order.last());
            Ok(AfterClose::Show(last.clone()))
        } else {
            Ok(AfterClose::OpenBlank)
        }
    }

    /// Records the URL a tab has loaded.
    pub fn record_url(&mut self, label: String, url: String)
        ensures
            final(self)@ == record_url_spec(old(self)@, label@, url@),
    {
        self.urls.insert(label, url);
    }

    /// Records the URL the active tab is sent to.
    pub fn set_active_url(&mut self, url: String)
        ensures
            final(self)@ == record_url_spec(old(self)@, old(self)@.active, url@),
    {
        let label = self.active.clone();
        self.urls.insert(label, url);
    }
}

} // verus!

verus! {

// ---------------------------------------------------------------------------
// What the tab bookkeeping keeps
// ---------------------------------------------------------------------------

/// A label that was given out while the counter rose to `counter`.
pub open spec fn given_out(label: Seq<char>, counter: nat) -> bool {
    exists|k: nat| 1 <= k <= counter && label == #[trigger] tab_label(k)
}

/// No tab is listed twice, every tab's label is one that was given out, and
/// each tab has at most one recorded URL.
pub open spec fn tabs_wf(st: SpecTabs) -> bool {
    &&& st.order.no_duplicates()
    &&& forall|i: int| 0 <= i < st.order.len() ==> given_out(#[trigger] st.order[i], st.counter)
    &&& crate::strmap::keys_distinct(st.urls)
}

proof fn lemma_decimal_len(n: nat)
    ensures
        decimal(n).len() >= 1,
        n >= 10 ==> decimal(n).len() >= 2,
    decreases n,
{
    if n >= 10 {
        lemma_decimal_len(n / 10);
    }
}

proof fn lemma_digit_char_injective(a: nat, b: nat)
    requires
        a < 10,
        b < 10,
        digit_char(a) == digit_char(b),
    ensures
        a == b,
{
}

/// Different numbers are written differently.
pub proof fn lemma_decimal_injective(a: nat, b: nat)
    requires
        decimal(a) == decimal(b),
    ensures
        a == b,
    decreases a,
{
    lemma_decimal_len(a);
    lemma_decimal_len(b);
    if a < 10 && b < 10 {
        assert(decimal(a)[0] == digit_char(a));
        assert(decimal(b)[0] == digit_char(b));
        lemma_digit_char_injective(a, b);
    } else if a >= 10 && b >= 10 {
        let da = decimal(a);
        let db = decimal(b);
        assert(da.drop_last() =~= decimal(a / 10));
        assert(db.drop_last() =~= decimal(b / 10));
        lemma_decimal_injective(a / 10, b / 10);
        assert(da.last() == digit_char(a % 10));
        lemma_digit_char_injective(a % 10, b % 10);
    } else {
        assert(false);
    }
}

/// Different tab numbers give different labels.
pub proof fn lemma_tab_label_injective(a: nat, b: nat)
    requires
        tab_label(a) == tab_label(b),
    ensures
        a == b,
{
    let p = "tab-"@;
    assert(tab_label(a).subrange(p.len() as int, tab_label(a).len() as int) =~= decimal(a));
    assert(tab_label(b).subrange(p.len() as int, tab_label(b).len() as int) =~= decimal(b));
    lemma_decimal_injective(a, b);
}

/// The state a browser starts with is well formed.
pub proof fn law_initial_state()
    ensures
        tabs_wf(initial_tabs()),
        tab_list_spec(initial_tabs()).len() == 0,
{
}

/// Opening a tab: the label given out is not that of any tab there is or ever
/// was, so labels are never reused; the new tab is the last in the tab bar, it is
/// the active one, and it shows its URL. The state stays well formed.
pub proof fn law_open_tab(st: SpecTabs, url: Seq<char>)
    requires
        tabs_wf(st),
    ensures
        ({
            let st1 = next_label_spec(st);
            let label = tab_label(st1.counter);
            let st2 = register_spec(st1, label, url);
            &&& forall|k: nat| 1 <= k <= st.counter ==> #[trigger] tab_label(k) != label
            &&& !st.order.contains(label)
            &&& tabs_wf(st2)
            &&& st2.active == label
            &&& st2.order.last() == label
            &&& map_get(st2.urls, label) == Some(url)
            &&& tab_list_spec(st2).len() == st.order.len() + 1
            &&& tab_list_spec(st2).last().active
        }),
{
    let st1 = next_label_spec(st);
    let label = tab_label(st1.counter);
    let st2 = register_spec(st1, label, url);
    assert forall|k: nat| 1 <= k <= st.counter implies #[trigger] tab_label(k) != label by {
        if tab_label(k) == label {
            lemma_tab_label_injective(k, st1.counter);
        }
    }
    if st.order.contains(label) {
        let i = choose|i: int| 0 <= i < st.order.len() && st.order[i] == label;
        assert(given_out(st.order[i], st.counter));
        let k = choose|k: nat| 1 <= k <= st.counter && st.order[i] == #[trigger] tab_label(k);
        lemma_tab_label_injective(k, st1.counter);
        assert(false);
    }
    assert forall|i: int| 0 <= i < st2.order.len() implies given_out(#[trigger] st2.order[i], st2.counter) by {
        if i < st.order.len() {
            assert(st2.order[i] == st.order[i]);
            assert(given_out(st.order[i], st.counter));
            let k = choose|k: nat| 1 <= k <= st.counter && st.order[i] == #[trigger] tab_label(k);
            assert(1 <= k <= st2.counter && st2.order[i] == tab_label(k));
        } else {
            assert(st2.order[i] == tab_label(st1.counter));
        }
    }
    assert(st2.order.no_duplicates()) by {
        assert forall|i: int, j: int| 0 <= i < st2.order.len() && 0 <= j < st2.order.len() && i != j implies st2.order[i] != st2.order[j] by {
            if i < st.order.len() && j < st.order.len() {
                assert(st2.order[i] == st.order[i] && st2.order[j] == st.order[j]);
            } else if i < st.order.len() {
                assert(st2.order[i] == st.order[i]);
                assert(st.order.contains(st.order[i]));
            } else if j < st.order.len() {
                assert(st2.order[j] == st.order[j]);
                assert(st.order.contains(st.order[j]));
            }
        }
    }
    crate::strmap::lemma_insert_keeps_distinct(st.urls, label, url);
    crate::strmap::lemma_get_after_insert(st.urls, label, url, label);
}

/// Switching succeeds exactly for a tab that exists; the tab becomes the active
/// one and nothing else changes. The state stays well formed.
pub proof fn law_switch(st: SpecTabs, label: Seq<char>)
    requires
        tabs_wf(st),
    ensures
        switch_spec(st, label) is Ok <==> st.order.contains(label),
        switch_spec(st, label) matches Ok(st2) ==> st2.active == label && st2.order == st.order
            && st2.urls == st.urls && tabs_wf(st2),
{
}

/// Closing a tab that exists removes it from the tab bar and forgets its URL;
/// it succeeds exactly for a tab that exists. The tab named to be shown next is
/// the closed tab's neighbour: the one after it, or the one before it if it was
/// last; it is one of the tabs that remain, so switching to it succeeds.
/// The state stays well formed.
pub proof fn law_close(st: SpecTabs, label: Seq<char>)
    requires
        tabs_wf(st),
    ensures
        close_spec(st, label) is Ok <==> st.order.contains(label),
        close_spec(st, label) matches Ok((st2, was_active, next)) ==> {
            &&& !st2.order.contains(label)
            &&& map_get(st2.urls, label) is None
            &&& st2.order.len() == st.order.len() - 1
            &&& was_active == (st.active == label)
            &&& (next matches Some(n) ==> st2.order.contains(n))
            &&& (next is None <==> st.order.len() == 1)
            &&& (next matches Some(n) ==> exists|i: int|
                0 <= i < st.order.len() && #[trigger] st.order[i] == label && if i + 1 < st.order.len() {
                    n == st.order[i + 1]
                } else {
                    n == st.order[i - 1]
                })
            &&& (after_close_spec(was_active, next) matches SpecAfterClose::Show(n) ==> switch_spec(
                st2,
                n,
            ) is Ok)
            &&& tabs_wf(st2)
        },
{
    lemma_first_index(st.order, label, st.order.len() as int);
    if let Some(i) = first_index(st.order, label, st.order.len() as int) {
        let o2 = st.order.remove(i);
        assert(st.order.contains(label));
        assert forall|a: int| 0 <= a < o2.len() implies o2[a] != label by {
            if a < i {
                assert(o2[a] == st.order[a]);
            } else {
                assert(o2[a] == st.order[a + 1]);
            }
        }
        assert forall|a: int, b: int| 0 <= a < o2.len() && 0 <= b < o2.len() && a != b implies o2[a] != o2[b] by {
            let a1 = if a < i { a } else { a + 1 };
            let b1 = if b < i { b } else { b + 1 };
            assert(o2[a] == st.order[a1] && o2[b] == st.order[b1]);
        }
        assert forall|a: int| 0 <= a < o2.len() implies given_out(#[trigger] o2[a], st.counter) by {
            let a1 = if a < i { a } else { a + 1 };
            assert(o2[a] == st.order[a1]);
            assert(given_out(st.order[a1], st.counter));
        }
        if i < o2.len() {
            assert(o2[i] == st.order[i + 1]);
            assert(o2.contains(o2[i]));
        }
        if o2.len() > 0 {
            assert(o2.contains(o2.last()));
            if i >= o2.len() {
                assert(o2.last() == st.order[i - 1]);
            }
        }
        lemma_remove_distinct(st.urls, label);
    } else {
        if st.order.contains(label) {
            let a = choose|a: int| 0 <= a < st.order.len() && st.order[a] == label;
            assert(st.order[a] != label);
        }
    }
}

proof fn lemma_remove_distinct(s: Seq<(Seq<char>, Seq<char>)>, k: Seq<char>)
    requires
        crate::strmap::keys_distinct(s),
    ensures
        crate::strmap::keys_distinct(map_remove(s, k)),
        map_get(map_remove(s, k), k) is None,
{
    crate::strmap::lemma_key_index(s, k);
    let r = map_remove(s, k);
    crate::strmap::lemma_key_index(r, k);
    if let Some(i) = crate::strmap::key_index(s, k) {
        assert forall|a: int, b: int| 0 <= a < b < r.len() implies r[a].0 != r[b].0 by {
            let a1 = if a < i { a } else { a + 1 };
            let b1 = if b < i { b } else { b + 1 };
            assert(r[a] == s[a1] && r[b] == s[b1]);
        }
        if let Some(j) = crate::strmap::key_index(r, k) {
            let j1 = if j < i { j } else { j + 1 };
            assert(r[j] == s[j1]);
        }
    }
}

/// Recording a URL changes only the URLs, and a tab's URL is then the one recorded.
pub proof fn law_record_url(st: SpecTabs, label: Seq<char>, url: Seq<char>)
    requires
        tabs_wf(st),
    ensures
        tabs_wf(record_url_spec(st, label, url)),
        map_get(record_url_spec(st, label, url).urls, label) == Some(url),
        record_url_spec(st, label, url).order == st.order,
        record_url_spec(st, label, url).active == st.active,
{
    let st2 = record_url_spec(st, label, url);
    assert(st2.order == st.order && st2.counter == st.counter);
    assert forall|i: int| 0 <= i < st2.order.len() implies given_out(#[trigger] st2.order[i], st2.counter) by {
        assert(st2.order[i] == st.order[i]);
        assert(given_out(st.order[i], st.counter));
    }
    crate::strmap::lemma_insert_keeps_distinct(st.urls, label, url);
    crate::strmap::lemma_get_after_insert(st.urls, label, url, label);
}

/// The tab list shows the tabs in tab bar order; when the active tab is one of
/// them, exactly one entry is marked active.
pub proof fn law_one_active_tab(st: SpecTabs)
    requires
        tabs_wf(st),
    ensures
        tab_list_spec(st).len() == st.order.len(),
        forall|i: int| 0 <= i < st.order.len() ==> (#[trigger] tab_list_spec(st)[i]).label == st.order[i],
        st.order.contains(st.active) ==> exists|i: int|
            0 <= i < st.order.len() && (#[trigger] tab_list_spec(st)[i]).active && forall|j: int|
                0 <= j < st.order.len() && (#[trigger] tab_list_spec(st)[j]).active ==> j == i,
{
    if st.order.contains(st.active) {
        let i = choose|i: int| 0 <= i < st.order.len() && st.order[i] == st.active;
        assert(tab_list_spec(st)[i].active);
        assert forall|j: int| 0 <= j < st.order.len() && (#[trigger] tab_list_spec(st)[j]).active implies j == i by {
            assert(st.order[j] == st.active);
        }
    }
}

} // verus!
