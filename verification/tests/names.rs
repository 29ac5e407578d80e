use vyges_fin::names::NameMap;

#[test]
fn names_are_kept_in_order_and_once() {
    let mut m: NameMap<i32> = NameMap::new();
    for (i, n) in ["met2", "met10", "li1", "met2", "", "met1"].iter().enumerate() {
        m.insert(n.to_string(), i as i32);
    }
    let all: Vec<(String, i32)> = (0..m.len())
        .map(|i| {
            let (n, v) = m.entry(i);
            (n.clone(), *v)
        })
        .collect();
    let want: Vec<(String, i32)> = [("", 4), ("li1", 2), ("met1", 5), ("met10", 1), ("met2", 3)]
        .iter()
        .map(|(n, v)| (n.to_string(), *v))
        .collect();
    assert_eq!(all, want);
    assert_eq!(m.get("met2"), Some(&3));
    assert_eq!(m.get("met"), None);
    assert!(m.contains_key("") && !m.contains_key("met3"));
    assert_eq!(m.clone(), m);
}
