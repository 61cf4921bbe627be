use provenance::backend::{Backend, DataType, Param, Populate};

#[test]
fn populate_tables_builds_one_insert_per_table() {
    let b = Backend::new("mysql://localhost/piazza");
    let pop = Populate {
        roles: vec![vec![DataType::Int(1), DataType::Int(2), DataType::Int(0)]],
        users: vec![vec![DataType::Int(1)], vec![DataType::Int(2)]],
        posts: vec![vec![
            DataType::Int(10),
            DataType::Int(2),
            DataType::Int(1),
            DataType::Text("hello".to_string()),
            DataType::Int(1),
        ]],
        classes: vec![],
    };
    let r = b.populate_tables(&pop);
    assert_eq!(r.len(), 4);
    assert_eq!(r[0].query, "INSERT INTO Role (r_uid, r_cid, r_role) VALUES (:r_uid, :r_cid, :r_role)");
    assert_eq!(r[1].query, "INSERT INTO User (u_id) VALUES (:u_id)");
    assert_eq!(r[1].params.len(), 2);
    assert_eq!(r[1].params[1][0].0, "u_id");
    assert!(matches!(r[1].params[1][0].1, Param::Int(2)));
    assert_eq!(r[2].params[0].len(), 5);
    assert_eq!(r[2].params[0][3].0, "p_content");
    assert!(matches!(&r[2].params[0][3].1, Param::Text(s) if s == "hello"));
    assert_eq!(r[3].query, "INSERT INTO Class (c_id) VALUES (:c_id)");
    assert!(r[3].params.is_empty());
    assert_eq!(b.addr(), "mysql://localhost/piazza");
}
