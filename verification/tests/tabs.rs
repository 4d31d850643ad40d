use kjr_browser::tabs::{AfterClose, TabsState, NEW_TAB_URL};

fn open(st: &mut TabsState, url: &str) -> String {
    let label = st.next_label();
    st.register_tab(label.clone(), url.to_string());
    label
}

#[test]
fn labels_count_up_from_one() {
    let mut st = TabsState::default();
    assert_eq!(open(&mut st, NEW_TAB_URL), "tab-1");
    assert_eq!(open(&mut st, "https://example.com/"), "tab-2");
    let list = st.tab_list();
    assert_eq!(list.len(), 2);
    assert_eq!(list[0].url, "about:blank");
    assert!(!list[0].active);
    assert!(list[1].active);
}

#[test]
fn closed_labels_are_not_reused() {
    let mut st = TabsState::default();
    let a = open(&mut st, "x");
    st.close_tab(&a).unwrap();
    assert_eq!(open(&mut st, "y"), "tab-2");
}

#[test]
fn switching_to_unknown_tab_is_refused() {
    let mut st = TabsState::default();
    open(&mut st, "x");
    assert_eq!(st.switch_to("tab-9".to_string()).unwrap_err(), "unknown tab: tab-9");
    assert_eq!(st.active_label(), "tab-1");
}

#[test]
fn switching_changes_the_active_tab() {
    let mut st = TabsState::default();
    let a = open(&mut st, "x");
    open(&mut st, "y");
    st.switch_to(a.clone()).unwrap();
    assert_eq!(st.active_label(), &a);
    let actives: Vec<bool> = st.tab_list().iter().map(|t| t.active).collect();
    assert_eq!(actives, vec![true, false]);
}

#[test]
fn closing_the_last_active_tab_shows_the_one_before() {
    let mut st = TabsState::default();
    open(&mut st, "x");
    open(&mut st, "y");
    let c = open(&mut st, "z");
    match st.close_tab(&c).unwrap() {
        AfterClose::Show(next) => assert_eq!(next, "tab-2"),
        _ => panic!("the neighbour is shown"),
    }
    assert_eq!(st.labels().len(), 2);
}

#[test]
fn closing_the_active_tab_shows_its_neighbour() {
    let mut st = TabsState::default();
    let a = open(&mut st, "x");
    open(&mut st, "y");
    open(&mut st, "z");
    st.switch_to(a.clone()).unwrap();
    match st.close_tab(&a).unwrap() {
        AfterClose::Show(next) => assert_eq!(next, "tab-2"),
        _ => panic!("the neighbour is shown"),
    }
    assert_eq!(st.labels(), &vec!["tab-2".to_string(), "tab-3".to_string()]);
    let urls: Vec<String> = st.tab_list().iter().map(|t| t.url.clone()).collect();
    assert_eq!(urls, vec!["y", "z"]);
}

#[test]
fn closing_an_inactive_tab() {
    let mut st = TabsState::default();
    let a = open(&mut st, "x");
    open(&mut st, "y");
    assert!(matches!(st.close_tab(&a).unwrap(), AfterClose::Stay));
    assert_eq!(st.active_label(), "tab-2");
    assert_eq!(st.close_tab(&a).err().unwrap(), "unknown tab: tab-1");
}

#[test]
fn closing_the_only_tab_leaves_none() {
    let mut st = TabsState::default();
    let a = open(&mut st, "x");
    assert!(matches!(st.close_tab(&a).unwrap(), AfterClose::OpenBlank));
    assert!(st.tab_list().is_empty());
}

#[test]
fn page_loads_and_navigation_record_urls() {
    let mut st = TabsState::default();
    let a = open(&mut st, "x");
    st.record_url(a.clone(), "https://a/".to_string());
    assert_eq!(st.tab_list()[0].url, "https://a/");
    st.set_active_url("https://b/".to_string());
    assert_eq!(st.tab_list()[0].url, "https://b/");
}

#[test]
fn counter_reaches_two_digits() {
    let mut st = TabsState::default();
    let mut last = String::new();
    for _ in 0..12 {
        last = open(&mut st, "x");
    }
    assert_eq!(last, "tab-12");
    assert!(st.can_open());
}
