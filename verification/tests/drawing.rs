use route_optimizer::catalog::{StopCatalog, StopRecord};
use route_optimizer::drawing::{
    label_order, label_priority, legend_cell, legend_row_count, passthrough_only, visit_point,
    Var,
};
use route_optimizer::layout::build_layout;
use route_optimizer::routes::{Route, RouteStyle};
use route_optimizer::text::{chars_of, escape_xml, lex_compare, string_from_chars, LexOrder};
use route_optimizer::transfer::{transfer_arm_links, transfer_order_permutations, ArmLink};
use std::collections::BTreeSet;

#[test]
fn escape_xml_replaces_markup() {
    assert_eq!(escape_xml("A & B <c> \"d\""), "A &amp; B &lt;c&gt; &quot;d&quot;");
    assert_eq!(escape_xml("정문"), "정문");
    assert_eq!(escape_xml(""), "");
    assert_eq!(escape_xml("&amp;"), "&amp;amp;");
    assert_eq!(escape_xml("'"), "'");
}

#[test]
fn escape_xml_output_has_no_markup() {
    for s in ["<<>>", "\"&\"", "plain", "a<b>c&d\"e"] {
        let out = escape_xml(s);
        assert!(!out.contains('<') && !out.contains('>') && !out.contains('"'));
    }
}

#[test]
fn chars_round_trip() {
    let v = chars_of("노선 5513");
    assert_eq!(v.len(), 7);
    assert_eq!(string_from_chars(&v), "노선 5513");
}

#[test]
fn lex_compare_matches_string_order() {
    let words = ["", "a", "ab", "b", "B", "가", "나", "01009", "1", "10", "9"];
    for a in words {
        for b in words {
            let expected = match a.cmp(b) {
                std::cmp::Ordering::Less => LexOrder::Less,
                std::cmp::Ordering::Equal => LexOrder::Equal,
                std::cmp::Ordering::Greater => LexOrder::Greater,
            };
            assert_eq!(lex_compare(&chars_of(a), &chars_of(b)), expected, "{a} vs {b}");
        }
    }
}

#[test]
fn permutations_follow_swap_search_order() {
    let orders = transfer_order_permutations(&vec![1, 2, 3]);
    assert_eq!(
        orders,
        vec![
            vec![1, 2, 3],
            vec![1, 3, 2],
            vec![2, 1, 3],
            vec![2, 3, 1],
            vec![3, 2, 1],
            vec![3, 1, 2],
        ]
    );
}

#[test]
fn permutations_are_complete() {
    let base: Vec<usize> = vec![7, 3, 9, 4, 11];
    let orders = transfer_order_permutations(&base);
    assert_eq!(orders.len(), 120);
    assert_eq!(orders[0], base);
    let distinct: BTreeSet<Vec<usize>> = orders.iter().cloned().collect();
    assert_eq!(distinct.len(), 120);
    let mut sorted_base = base.clone();
    sorted_base.sort();
    for o in &orders {
        let mut s = o.clone();
        s.sort();
        assert_eq!(s, sorted_base);
    }
    assert_eq!(transfer_order_permutations(&Vec::new()), vec![Vec::<usize>::new()]);
}

fn route(id: &str, refs: &[&str]) -> Route {
    Route {
        id: id.to_string(),
        name: id.to_string(),
        route: refs.iter().map(|s| s.to_string()).collect(),
        style: RouteStyle { color: "#000".to_string(), bidirectional: true },
    }
}

#[test]
fn transfer_arms_leave_each_node() {
    let mut cat = StopCatalog::new();
    for id in ["A", "B", "C", "D", "T"] {
        cat.insert(StopRecord { id: id.to_string(), name: id.to_string() });
    }
    // r1: A T C (visits 0 1 2); r2: T D (3 4); r3: B T T A (5 6 7 8)
    let routes = vec![route("r1", &["A", "T", "C"]), route("r2", &["T", "D"]), route("r3", &["B", "T", "T", "A"])];
    let l = match build_layout(&routes, &cat) {
        Ok(l) => l,
        Err(_) => panic!("layout expected"),
    };
    let t_group = l.stop_groups.iter().find(|g| g.stop_id == "T").unwrap();
    assert_eq!(t_group.visits, vec![1, 3, 6, 7]);
    let arms = transfer_arm_links(&t_group.visits, &l.routes, &l.visits);
    assert_eq!(
        arms,
        vec![
            ArmLink { route_index: 0, visit_index: 1, neighbor: 0 },
            ArmLink { route_index: 0, visit_index: 1, neighbor: 2 },
            ArmLink { route_index: 1, visit_index: 3, neighbor: 4 },
            ArmLink { route_index: 2, visit_index: 6, neighbor: 5 },
            ArmLink { route_index: 2, visit_index: 7, neighbor: 8 },
        ]
    );
}

#[test]
fn label_priority_and_order() {
    assert_eq!(label_priority("정문", 3), 4 * 2 + 6 * 3);
    assert_eq!(label_priority("", 0), 0);
    let priorities: Vec<u128> = vec![10, 30, 10, 50, 30];
    assert_eq!(label_order(&priorities), vec![3, 1, 4, 0, 2]);
    assert_eq!(label_order(&Vec::new()), Vec::<usize>::new());
}

#[test]
fn legend_grid() {
    assert_eq!(legend_row_count(0, 3), 1);
    assert_eq!(legend_row_count(3, 3), 1);
    assert_eq!(legend_row_count(4, 3), 2);
    assert_eq!(legend_row_count(7, 1), 7);
    assert_eq!(legend_cell(4, 3), (1, 1));
    assert_eq!(legend_cell(0, 3), (0, 0));
    let n = 11;
    let c = 4;
    let rows = legend_row_count(n, c);
    let cells: BTreeSet<(usize, usize)> = (0..n).map(|i| legend_cell(i, c)).collect();
    assert_eq!(cells.len(), n);
    assert!(cells.iter().all(|&(col, row)| col < c && row < rows));
}

#[test]
fn visit_point_addresses_coordinate_pairs() {
    let vars: Vec<Var> = (0..6).map(|index| Var { index: index + 100 }).collect();
    let p = visit_point(&vars, 2);
    assert_eq!(p.x, Var { index: 104 });
    assert_eq!(p.y, Var { index: 105 });
}

fn decode_entities(text: &str) -> String {
    let mut out = String::new();
    let mut rest = text;
    while let Some(c) = rest.chars().next() {
        let mut decoded = false;
        for (entity, ch) in [("&amp;", '&'), ("&lt;", '<'), ("&gt;", '>'), ("&quot;", '"')] {
            if rest.starts_with(entity) {
                out.push(ch);
                rest = &rest[entity.len()..];
                decoded = true;
                break;
            }
        }
        if !decoded {
            out.push(c);
            rest = &rest[c.len_utf8()..];
        }
    }
    out
}

#[test]
fn escape_xml_round_trip() {
    for s in ["A & B <c> \"d\"", "&amp;", "&lt;&gt;", "it's", "정문 & 역", ""] {
        let out = escape_xml(s);
        for (i, c) in out.char_indices() {
            if c == '&' {
                let tail = &out[i..];
                assert!(["&amp;", "&lt;", "&gt;", "&quot;"].iter().any(|e| tail.starts_with(e)));
            }
        }
        assert_eq!(decode_entities(&out), s);
    }
}

#[test]
fn passthrough_only_labels() {
    assert!(!passthrough_only(&vec![]));
    assert!(passthrough_only(&vec![true]));
    assert!(passthrough_only(&vec![true, true, true]));
    assert!(!passthrough_only(&vec![true, false]));
    assert!(!passthrough_only(&vec![false]));
}
