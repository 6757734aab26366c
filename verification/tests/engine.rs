//! Queries answered from a simulated disk.

use std::collections::HashMap;

use database::block::rows_to_blocks;
use database::catalog::{CardinalityData, ColumnSpec, ColumnStat, DbContext, TableSpec};
use database::data::{Data, DataType};
use database::disk::DiskManager;
use database::executor::builder::{build_operator, Build, PlanError};
use database::executor::node::PlanNode;
use database::facts::FileFacts;
use database::key::DataKey;
use database::query::{
    ComparisionOperator, ComparisionValue, CrossData, FilterData, Predicate, ProjectData, QueryOp,
    ScanData, SortData, SortSpec,
};
use database::row::Row;
use database::session::{Action, Session, Stage};

const BLOCK_SIZE: usize = 64;

struct Sim {
    block_size: usize,
    anon_start: u64,
    blocks: HashMap<u64, Vec<u8>>,
    files: HashMap<String, (u64, u64)>,
    log: Vec<String>,
}

impl Sim {
    fn new(block_size: usize) -> Sim {
        Sim {
            block_size,
            anon_start: 0,
            blocks: HashMap::new(),
            files: HashMap::new(),
            log: Vec::new(),
        }
    }

    fn put(&mut self, start: u64, bytes: &[u8]) -> u64 {
        assert_eq!(bytes.len() % self.block_size, 0);
        let n = bytes.len() / self.block_size;
        for i in 0..n {
            let chunk = bytes[i * self.block_size..(i + 1) * self.block_size].to_vec();
            self.blocks.insert(start + i as u64, chunk);
        }
        n as u64
    }

    fn add_file(&mut self, id: &str, rows: &Vec<Row>) {
        let bytes = rows_to_blocks(rows, self.block_size);
        let start = self.anon_start;
        let n = self.put(start, &bytes);
        self.files.insert(id.to_string(), (start, n));
        self.anon_start = start + n;
    }

    fn manager(&self) -> DiskManager {
        DiskManager::new(
            format!("{}\n", self.block_size).as_bytes(),
            format!("{}\n", self.anon_start).as_bytes(),
        )
        .unwrap()
    }

    fn exchange(&mut self, disk: &mut DiskManager) {
        let commands = disk.take_commands();
        let mut question: Option<String> = None;
        for c in commands {
            assert!(question.is_none());
            self.log.push(c.header.clone());
            let words: Vec<&str> = c.header.trim_end().split(' ').collect();
            match (words[0], words[1]) {
                ("put", "block") => {
                    let start: u64 = words[2].parse().unwrap();
                    let n: u64 = words[3].parse().unwrap();
                    assert!(start >= self.anon_start);
                    assert_eq!(self.put(start, &c.payload), n);
                }
                _ => {
                    assert!(c.payload.is_empty());
                    question = Some(c.header.clone());
                }
            }
        }
        if let Some(q) = question {
            let words: Vec<&str> = q.trim_end().split(' ').collect();
            match (words[0], words[1]) {
                ("get", "block") => {
                    let start: u64 = words[2].parse().unwrap();
                    let n: u64 = words[3].parse().unwrap();
                    assert_eq!(disk.awaited_bytes(), Some(n as usize * self.block_size));
                    let mut data = Vec::new();
                    for b in start..start + n {
                        data.extend_from_slice(&self.blocks[&b]);
                    }
                    disk.deliver_blocks(data);
                }
                ("get", "file") => {
                    assert!(disk.awaits_line());
                    let (start, n) = self.files[words[3]];
                    let answer = if words[2] == "start-block" { start } else { n };
                    assert!(disk.deliver_line(format!("{}\n", answer).as_bytes()));
                }
                _ => panic!("unexpected command {}", q),
            }
        }
    }

    fn run(&mut self, root: &QueryOp, ctx: &DbContext) -> Result<Vec<Row>, String> {
        let mut disk = self.manager();
        let mut session = Session::new(root);
        let mut rows = Vec::new();
        let mut begun = false;
        loop {
            match session.step(ctx, &mut disk) {
                Action::Wait => self.exchange(&mut disk),
                Action::Begin => {
                    assert!(!begun);
                    begun = true;
                }
                Action::Send(row) => {
                    assert!(begun);
                    rows.push(row);
                }
                Action::End => {
                    assert!(matches!(session.stage, Stage::Over));
                    return Ok(rows);
                }
                Action::Refuse(e) => return Err(format!("{:?}", e)),
                Action::Fail => return Err("failed".to_string()),
            }
        }
    }
}

fn num(n: i32) -> Data {
    Data::Int32(n)
}

fn text(s: &str) -> Data {
    Data::String(s.to_string())
}

fn double(x: f64) -> Data {
    Data::Float64(x.to_bits())
}

fn column(name: &str, data_type: DataType, stats: Option<Vec<ColumnStat>>) -> ColumnSpec {
    ColumnSpec { column_name: name.to_string(), data_type, stats }
}

fn table(name: &str, column_specs: Vec<ColumnSpec>) -> TableSpec {
    TableSpec { name: name.to_string(), file_id: format!("{}.tbl", name), column_specs }
}

fn scan(name: &str) -> QueryOp {
    QueryOp::Scan(ScanData { table_id: name.to_string() })
}

fn pred(column_name: &str, operator: ComparisionOperator, value: ComparisionValue) -> Predicate {
    Predicate { column_name: column_name.to_string(), operator, value }
}

fn col(name: &str) -> ComparisionValue {
    ComparisionValue::Column(name.to_string())
}

fn filter(predicates: Vec<Predicate>, op: QueryOp) -> QueryOp {
    QueryOp::Filter(FilterData { predicates, underlying: Box::new(op) })
}

fn cross(left: QueryOp, right: QueryOp) -> QueryOp {
    QueryOp::Cross(CrossData { left: Box::new(left), right: Box::new(right) })
}

fn sort(by: Vec<(&str, bool)>, op: QueryOp) -> QueryOp {
    QueryOp::Sort(SortData {
        sort_specs: by
            .into_iter()
            .map(|(name, ascending)| SortSpec { column_name: name.to_string(), ascending })
            .collect(),
        underlying: Box::new(op),
    })
}

fn project(map: Vec<(&str, &str)>, op: QueryOp) -> QueryOp {
    QueryOp::Project(ProjectData {
        column_name_map: map.into_iter().map(|(a, b)| (a.to_string(), b.to_string())).collect(),
        underlying: Box::new(op),
    })
}

fn show(row: &Row) -> String {
    let mut s = String::new();
    for v in row {
        match v {
            Data::Int32(n) => s.push_str(&n.to_string()),
            Data::Int64(n) => s.push_str(&n.to_string()),
            Data::Float32(b) => s.push_str(&f32::from_bits(*b).to_string()),
            Data::Float64(b) => s.push_str(&f64::from_bits(*b).to_string()),
            Data::String(t) => s.push_str(t),
        }
        s.push('|');
    }
    s
}

fn shown(rows: &Vec<Row>) -> Vec<String> {
    rows.iter().map(show).collect()
}

fn sorted(mut lines: Vec<String>) -> Vec<String> {
    lines.sort();
    lines
}

fn people() -> (Sim, DbContext) {
    let mut sim = Sim::new(BLOCK_SIZE);
    let rows: Vec<Row> = (0..30)
        .map(|i| vec![num(i), text(&format!("name{}", i % 7)), double(i as f64 / 4.0)])
        .collect();
    sim.add_file("people.tbl", &rows);
    let ctx = DbContext {
        table_specs: vec![table(
            "people",
            vec![
                column("id", DataType::Int32, Some(vec![ColumnStat::IsPhysicallyOrdered])),
                column("name", DataType::String, None),
                column("score", DataType::Float64, None),
            ],
        )],
    };
    (sim, ctx)
}

#[test]
fn scan_gives_all_rows_in_order() {
    let (mut sim, ctx) = people();
    let rows = sim.run(&scan("people"), &ctx).unwrap();
    assert_eq!(rows.len(), 30);
    assert_eq!(show(&rows[0]), "0|name0|0|");
    assert_eq!(show(&rows[29]), "29|name1|7.25|");
    assert_eq!(sim.log[0], "get file start-block people.tbl\n");
    assert_eq!(sim.log[1], "get file num-blocks people.tbl\n");
    assert_eq!(sim.log.len(), 3);
}

#[test]
fn scan_reads_sixty_four_blocks_at_a_time() {
    let mut sim = Sim::new(BLOCK_SIZE);
    let rows: Vec<Row> = (0..100).map(|i| vec![text(&format!("{:0>50}", i))]).collect();
    sim.add_file("wide.tbl", &rows);
    let ctx = DbContext {
        table_specs: vec![table("wide", vec![column("w", DataType::String, None)])],
    };
    let out = sim.run(&scan("wide"), &ctx).unwrap();
    assert_eq!(shown(&out), shown(&rows));
    assert_eq!(sim.log[2], "get block 0 64\n");
    assert_eq!(sim.log[3], "get block 64 36\n");
    assert_eq!(sim.log.len(), 4);
}

#[test]
fn scan_of_an_empty_table_gives_nothing() {
    let mut sim = Sim::new(BLOCK_SIZE);
    sim.add_file("none.tbl", &vec![]);
    let ctx = DbContext {
        table_specs: vec![table("none", vec![column("x", DataType::Int32, None)])],
    };
    assert_eq!(sim.run(&scan("none"), &ctx).unwrap().len(), 0);
}

#[test]
fn unknown_table_is_refused() {
    let (mut sim, ctx) = people();
    let err = sim.run(&scan("nobody"), &ctx).unwrap_err();
    assert_eq!(err, "UnknownTable(\"nobody\")");
}

#[test]
fn unknown_column_in_a_projection_is_refused() {
    let (mut sim, ctx) = people();
    let q = project(vec![("id", "a"), ("age", "b")], scan("people"));
    assert_eq!(sim.run(&q, &ctx).unwrap_err(), "UnknownColumn(\"age\")");
}

#[test]
fn file_beyond_the_last_block_is_refused() {
    let (mut sim, ctx) = people();
    sim.files.insert("people.tbl".to_string(), (u64::MAX, 1));
    assert_eq!(sim.run(&scan("people"), &ctx).unwrap_err(), "FileTooLarge(\"people.tbl\")");
}

#[test]
fn filter_compares_with_each_operator() {
    let (mut sim, ctx) = people();
    let cases = vec![
        (ComparisionOperator::EQ, 1),
        (ComparisionOperator::NE, 29),
        (ComparisionOperator::GT, 19),
        (ComparisionOperator::GTE, 20),
        (ComparisionOperator::LT, 10),
        (ComparisionOperator::LTE, 11),
    ];
    for (op, n) in cases {
        let q = filter(vec![pred("id", op, ComparisionValue::I32(10))], scan("people"));
        assert_eq!(sim.run(&q, &ctx).unwrap().len(), n);
    }
}

#[test]
fn filter_takes_all_predicates_together() {
    let (mut sim, ctx) = people();
    let q = filter(
        vec![
            pred("name", ComparisionOperator::EQ, ComparisionValue::String("name3".to_string())),
            pred("score", ComparisionOperator::GT, ComparisionValue::F64(2.0f64.to_bits())),
        ],
        scan("people"),
    );
    let rows = sim.run(&q, &ctx).unwrap();
    assert_eq!(shown(&rows), vec!["10|name3|2.5|", "17|name3|4.25|", "24|name3|6|"]);
}

#[test]
fn filter_on_an_unknown_column_fails_when_it_is_asked() {
    let (mut sim, ctx) = people();
    let reached = filter(
        vec![pred("age", ComparisionOperator::EQ, ComparisionValue::I32(1))],
        scan("people"),
    );
    assert!(sim.run(&reached, &ctx).is_err());
    let not_reached = filter(
        vec![
            pred("id", ComparisionOperator::LT, ComparisionValue::I32(0)),
            pred("age", ComparisionOperator::EQ, ComparisionValue::I32(1)),
        ],
        scan("people"),
    );
    assert_eq!(sim.run(&not_reached, &ctx).unwrap().len(), 0);
}

#[test]
fn project_picks_and_renames() {
    let (mut sim, ctx) = people();
    let q = filter(
        vec![pred("who", ComparisionOperator::EQ, ComparisionValue::String("name6".to_string()))],
        project(vec![("name", "who"), ("id", "number")], scan("people")),
    );
    let rows = sim.run(&q, &ctx).unwrap();
    assert_eq!(shown(&rows), vec!["name6|6|", "name6|13|", "name6|20|", "name6|27|"]);
}

#[test]
fn sort_in_memory_is_stable_and_directed() {
    let (mut sim, ctx) = people();
    let q = sort(vec![("name", false)], scan("people"));
    let rows = sim.run(&q, &ctx).unwrap();
    assert_eq!(rows.len(), 30);
    assert_eq!(show(&rows[0]), "6|name6|1.5|");
    assert_eq!(show(&rows[1]), "13|name6|3.25|");
    assert_eq!(show(&rows[4]), "5|name5|1.25|");
    assert_eq!(show(&rows[29]), "28|name0|7|");
    let q = sort(vec![("name", true), ("id", false)], scan("people"));
    let rows = sim.run(&q, &ctx).unwrap();
    assert_eq!(show(&rows[0]), "28|name0|7|");
    assert_eq!(show(&rows[4]), "0|name0|0|");
    assert_eq!(show(&rows[5]), "29|name1|7.25|");
    assert_eq!(show(&rows[29]), "6|name6|1.5|");
}

#[test]
fn sort_is_left_out_where_the_table_is_ordered() {
    let (mut sim, ctx) = people();
    let disk_has_sort = |sim: &mut Sim, q: &QueryOp| -> bool {
        let mut disk = sim.manager();
        let mut facts = FileFacts::new();
        loop {
            match build_operator(q, &ctx, &mut facts, &mut disk) {
                Build::Ready(node) => return matches!(node, PlanNode::Sort(_)),
                Build::Pending => sim.exchange(&mut disk),
                Build::Failed(_) => panic!("no plan"),
            }
        }
    };
    assert!(!disk_has_sort(&mut sim, &sort(vec![("id", true)], scan("people"))));
    assert!(disk_has_sort(&mut sim, &sort(vec![("id", false)], scan("people"))));
    assert!(disk_has_sort(&mut sim, &sort(vec![("name", true)], scan("people"))));
    assert!(disk_has_sort(&mut sim, &sort(vec![("id", true), ("name", true)], scan("people"))));
    let filtered = filter(
        vec![pred("id", ComparisionOperator::GT, ComparisionValue::I32(3))],
        scan("people"),
    );
    assert!(!disk_has_sort(&mut sim, &sort(vec![("id", true)], filtered)));
}

#[test]
fn sort_by_an_unknown_column_fails() {
    let (mut sim, ctx) = people();
    assert!(sim.run(&sort(vec![("age", true)], scan("people")), &ctx).is_err());
}

/// Rows whose text makes each count for about 100 KB in a run.
fn big_rows(n: i32, len: usize) -> Vec<Row> {
    (0..n)
        .map(|i| {
            let key = (i * 37) % n;
            vec![num(key), text(&"x".repeat(len)), num(i)]
        })
        .collect()
}

fn big(n: i32, len: usize, block_size: usize) -> (Sim, DbContext) {
    let mut sim = Sim::new(block_size);
    sim.add_file("big.tbl", &big_rows(n, len));
    let ctx = DbContext {
        table_specs: vec![table(
            "big",
            vec![
                column("key", DataType::Int32, None),
                column("pad", DataType::String, None),
                column("pos", DataType::Int32, None),
            ],
        )],
    };
    (sim, ctx)
}

#[test]
fn sort_with_runs_on_disk() {
    let (mut sim, ctx) = big(250, 100_000, 131_072);
    let rows = sim.run(&sort(vec![("key", true)], scan("big")), &ctx).unwrap();
    assert_eq!(rows.len(), 250);
    for (i, row) in rows.iter().enumerate() {
        assert!(matches!(row[0], Data::Int32(k) if k == i as i32));
    }
    let writes: Vec<&String> = sim.log.iter().filter(|l| l.starts_with("put block")).collect();
    assert_eq!(writes.len(), 3);
    assert_eq!(writes[0], "put block 250 105\n");
    assert_eq!(writes[1], "put block 355 105\n");
    assert_eq!(writes[2], "put block 460 40\n");
    let rows = sim.run(&sort(vec![("key", false)], scan("big")), &ctx).unwrap();
    for (i, row) in rows.iter().enumerate() {
        assert!(matches!(row[0], Data::Int32(k) if k == 249 - i as i32));
    }
}

#[test]
fn sort_with_runs_on_disk_fails_on_an_unknown_column() {
    let (mut sim, ctx) = big(120, 100_000, 131_072);
    assert!(sim.run(&sort(vec![("key", true), ("age", true)], scan("big")), &ctx).is_err());
}

fn two_tables(n: i32, m: i32) -> (Sim, DbContext) {
    let mut sim = Sim::new(BLOCK_SIZE);
    let a: Vec<Row> = (0..n).map(|i| vec![num(i), text(&format!("a{}", i))]).collect();
    let b: Vec<Row> = (0..m).map(|i| vec![num(i % 5), text(&format!("b{}", i))]).collect();
    sim.add_file("a.tbl", &a);
    sim.add_file("b.tbl", &b);
    let ctx = DbContext {
        table_specs: vec![
            table(
                "a",
                vec![column("a_id", DataType::Int32, None), column("a_name", DataType::String, None)],
            ),
            table(
                "b",
                vec![column("b_id", DataType::Int32, None), column("b_name", DataType::String, None)],
            ),
        ],
    };
    (sim, ctx)
}

#[test]
fn cross_pairs_every_row_with_every_row() {
    let (mut sim, ctx) = two_tables(3, 4);
    let rows = sim.run(&cross(scan("a"), scan("b")), &ctx).unwrap();
    let mut expected = Vec::new();
    for i in 0..3 {
        for j in 0..4 {
            expected.push(format!("{}|a{}|{}|b{}|", i, i, j % 5, j));
        }
    }
    assert_eq!(shown(&rows), expected);
}

#[test]
fn cross_with_an_empty_side_gives_nothing() {
    let (mut sim, ctx) = two_tables(0, 4);
    assert_eq!(sim.run(&cross(scan("a"), scan("b")), &ctx).unwrap().len(), 0);
    let (mut sim, ctx) = two_tables(4, 0);
    assert_eq!(sim.run(&cross(scan("a"), scan("b")), &ctx).unwrap().len(), 0);
}

#[test]
fn cross_reads_a_large_right_side_again_for_each_left_row() {
    let mut sim = Sim::new(131_072);
    let a: Vec<Row> = (0..3).map(|i| vec![num(i)]).collect();
    let b: Vec<Row> = (0..70).map(|i| vec![num(i), text(&"y".repeat(100_000))]).collect();
    sim.add_file("a.tbl", &a);
    sim.add_file("b.tbl", &b);
    let ctx = DbContext {
        table_specs: vec![
            table("a", vec![column("x", DataType::Int32, None)]),
            table("b", vec![column("y", DataType::Int32, None), column("pad", DataType::String, None)]),
        ],
    };
    let q = project(vec![("x", "x"), ("y", "y")], cross(scan("a"), scan("b")));
    let rows = sim.run(&q, &ctx).unwrap();
    let mut expected = Vec::new();
    for i in 0..3 {
        for j in 0..70 {
            expected.push(format!("{}|{}|", i, j));
        }
    }
    assert_eq!(shown(&rows), expected);
    let writes: Vec<&String> = sim.log.iter().filter(|l| l.starts_with("put block")).collect();
    assert_eq!(writes, vec!["put block 71 64\n", "put block 135 6\n"]);
    let single = sim.log.iter().filter(|l| l.starts_with("get block") && l.ends_with(" 1\n")).count();
    // The left table, the first block when the right side is complete, and the right side
    // for each left row.
    assert_eq!(single, 1 + 1 + 3 * 70);
}

#[test]
fn nested_crosses_spill_side_by_side() {
    let (mut sim, ctx) = two_tables(3, 2);
    let inner = project(vec![("b_id", "c"), ("b_name", "d")], cross(scan("b"), scan("a")));
    let rows = sim.run(&cross(scan("a"), inner), &ctx).unwrap();
    assert_eq!(rows.len(), 3 * 2 * 3);
    assert_eq!(show(&rows[0]), "0|a0|0|b0|");
    assert_eq!(show(&rows[17]), "2|a2|1|b1|");
}

fn join_query() -> QueryOp {
    filter(
        vec![pred("a_id", ComparisionOperator::EQ, col("b_id"))],
        cross(scan("a"), scan("b")),
    )
}

#[test]
fn equality_of_columns_becomes_a_hash_join() {
    let (mut sim, ctx) = two_tables(3, 12);
    let q = join_query();
    let mut disk = sim.manager();
    let mut facts = FileFacts::new();
    loop {
        match build_operator(&q, &ctx, &mut facts, &mut disk) {
            Build::Ready(node) => {
                assert!(matches!(node, PlanNode::HashJoin(_)));
                break;
            }
            Build::Pending => sim.exchange(&mut disk),
            Build::Failed(_) => panic!("no plan"),
        }
    }
    let rows = sim.run(&q, &ctx).unwrap();
    let expected = vec![
        "0|b0|0|a0|", "1|b1|1|a1|", "2|b2|2|a2|", "0|b5|0|a0|", "1|b6|1|a1|", "2|b7|2|a2|",
        "0|b10|0|a0|", "1|b11|1|a1|",
    ];
    assert_eq!(shown(&rows), expected);
}

#[test]
fn hash_join_agrees_with_filter_over_cross() {
    let (mut sim, ctx) = two_tables(7, 23);
    let joined = sim.run(&join_query(), &ctx).unwrap();
    let plain = filter(
        vec![pred("a_id", ComparisionOperator::EQ, col("b_id"))],
        project(
            vec![("b_id", "b_id"), ("b_name", "b_name"), ("a_id", "a_id"), ("a_name", "a_name")],
            cross(scan("a"), scan("b")),
        ),
    );
    let naive = sim.run(&plain, &ctx).unwrap();
    assert_eq!(sorted(shown(&joined)), sorted(shown(&naive)));
    assert_eq!(joined.len(), 23);
}

#[test]
fn hash_join_with_partitions_on_disk() {
    let mut sim = Sim::new(131_072);
    let a: Vec<Row> = (0..400).map(|i| vec![num(i % 50), num(i)]).collect();
    let b: Vec<Row> = (0..200).map(|i| vec![num(i % 60), text(&"z".repeat(100_000)), num(i)]).collect();
    sim.add_file("a.tbl", &a);
    sim.add_file("b.tbl", &b);
    let big_stat = Some(vec![ColumnStat::CardinalityStat(CardinalityData(1_000_000))]);
    let ctx = DbContext {
        table_specs: vec![
            table("a", vec![column("ak", DataType::Int32, big_stat), column("an", DataType::Int32, None)]),
            table(
                "b",
                vec![
                    column("bk", DataType::Int32, None),
                    column("pad", DataType::String, None),
                    column("bn", DataType::Int32, None),
                ],
            ),
        ],
    };
    let q = project(
        vec![("an", "an"), ("bn", "bn")],
        filter(vec![pred("ak", ComparisionOperator::EQ, col("bk"))], cross(scan("a"), scan("b"))),
    );
    let rows = sim.run(&q, &ctx).unwrap();
    let mut expected = Vec::new();
    for i in 0..400 {
        for j in 0..200 {
            if i % 50 == j % 60 {
                expected.push(format!("{}|{}|", i, j));
            }
        }
    }
    assert_eq!(sorted(shown(&rows)), sorted(expected));
    assert!(sim.log.iter().any(|l| l.starts_with("put block")));
    // Within a left row the matches keep the order of the right side.
    let of_zero: Vec<String> = shown(&rows).into_iter().filter(|l| l.starts_with("0|")).collect();
    assert_eq!(of_zero, vec!["0|0|", "0|60|", "0|120|", "0|180|"]);
}

#[test]
fn hash_join_tells_the_zeros_and_nans_apart_by_their_bits() {
    let mut sim = Sim::new(BLOCK_SIZE);
    sim.add_file("l.tbl", &vec![vec![double(0.0)], vec![double(-0.0)], vec![double(f64::NAN)]]);
    sim.add_file("r.tbl", &vec![vec![double(-0.0)], vec![double(f64::NAN)]]);
    let ctx = DbContext {
        table_specs: vec![
            table("l", vec![column("x", DataType::Float64, None)]),
            table("r", vec![column("y", DataType::Float64, None)]),
        ],
    };
    let q = filter(vec![pred("x", ComparisionOperator::EQ, col("y"))], cross(scan("l"), scan("r")));
    let rows = sim.run(&q, &ctx).unwrap();
    assert_eq!(shown(&rows), vec!["-0|-0|", "NaN|NaN|"]);
    let plain = filter(
        vec![pred("x", ComparisionOperator::EQ, col("y"))],
        project(vec![("x", "x"), ("y", "y")], cross(scan("l"), scan("r"))),
    );
    let rows = sim.run(&plain, &ctx).unwrap();
    assert_eq!(shown(&rows), vec!["0|-0|", "-0|-0|"]);
}

#[test]
fn sides_with_a_common_column_name_are_not_reordered() {
    let (mut sim, ctx) = two_tables(3, 2);
    let q = filter(
        vec![pred("a_id", ComparisionOperator::EQ, ComparisionValue::I32(1))],
        cross(scan("a"), scan("a")),
    );
    let rows = sim.run(&q, &ctx).unwrap();
    assert_eq!(shown(&rows), vec!["1|a1|0|a0|", "1|a1|1|a1|", "1|a1|2|a2|"]);
}

#[test]
fn conditions_on_unknown_columns_above_a_join_are_dropped() {
    let (mut sim, ctx) = two_tables(3, 5);
    let q = filter(
        vec![
            pred("a_id", ComparisionOperator::EQ, col("b_id")),
            pred("age", ComparisionOperator::EQ, ComparisionValue::I32(1)),
        ],
        cross(scan("a"), scan("b")),
    );
    assert_eq!(sim.run(&q, &ctx).unwrap().len(), 3);
}

/// Three tables, two of which are connected only through the third.
fn parts() -> (Sim, DbContext) {
    let mut sim = Sim::new(BLOCK_SIZE);
    let supplier: Vec<Row> = (0..4).map(|i| vec![num(i), text(&format!("s{}", i))]).collect();
    let part: Vec<Row> = (0..6).map(|i| vec![num(i), text(&format!("p{}", i))]).collect();
    let partsupp: Vec<Row> = (0..12).map(|i| vec![num(i % 6), num(i % 4), num(i)]).collect();
    sim.add_file("supplier.tbl", &supplier);
    sim.add_file("part.tbl", &part);
    sim.add_file("partsupp.tbl", &partsupp);
    let stat = |n: u64| Some(vec![ColumnStat::CardinalityStat(CardinalityData(n))]);
    let ctx = DbContext {
        table_specs: vec![
            table(
                "supplier",
                vec![column("s_key", DataType::Int32, stat(10_000)), column("s_name", DataType::String, None)],
            ),
            table(
                "part",
                vec![column("p_key", DataType::Int32, stat(200_000)), column("p_name", DataType::String, None)],
            ),
            table(
                "partsupp",
                vec![
                    column("ps_part", DataType::Int32, stat(800_000)),
                    column("ps_supp", DataType::Int32, None),
                    column("ps_n", DataType::Int32, None),
                ],
            ),
        ],
    };
    (sim, ctx)
}

#[test]
fn largest_table_starts_the_join_and_no_cross_product_is_made() {
    let (mut sim, ctx) = parts();
    let q = filter(
        vec![
            pred("s_key", ComparisionOperator::EQ, col("ps_supp")),
            pred("p_key", ComparisionOperator::EQ, col("ps_part")),
        ],
        cross(cross(scan("supplier"), scan("part")), scan("partsupp")),
    );
    let mut disk = sim.manager();
    let mut facts = FileFacts::new();
    let node = loop {
        match build_operator(&q, &ctx, &mut facts, &mut disk) {
            Build::Ready(node) => break node,
            Build::Pending => sim.exchange(&mut disk),
            Build::Failed(_) => panic!("no plan"),
        }
    };
    // The filter behind the last join checks the keys of the first one again.
    let top = match node {
        PlanNode::Filter(f) => {
            assert_eq!(f.predicates.len(), 1);
            *f.child
        }
        _ => panic!("no filter"),
    };
    let (inner, last) = match top {
        PlanNode::HashJoin(j) => (*j.left.unwrap(), *j.right.unwrap()),
        _ => panic!("no join"),
    };
    assert!(matches!(last, PlanNode::Scan(ref s) if s.cursor.schema[0].0 == "s_key"));
    let (first, second) = match inner {
        PlanNode::HashJoin(j) => (*j.left.unwrap(), *j.right.unwrap()),
        _ => panic!("no join"),
    };
    assert!(matches!(first, PlanNode::Scan(ref s) if s.cursor.schema[0].0 == "ps_part"));
    assert!(matches!(second, PlanNode::Scan(ref s) if s.cursor.schema[0].0 == "p_key"));

    let rows = sim.run(&q, &ctx).unwrap();
    let expected: Vec<String> = (0..12)
        .map(|i| format!("{}|{}|{}|{}|p{}|{}|s{}|", i % 6, i % 4, i, i % 6, i % 6, i % 4, i % 4))
        .collect();
    assert_eq!(shown(&rows), expected);
}

#[test]
fn conditions_are_pushed_down_to_scans() {
    let (mut sim, ctx) = two_tables(5, 5);
    let q = filter(
        vec![
            pred("a_id", ComparisionOperator::EQ, col("b_id")),
            pred("a_id", ComparisionOperator::GT, ComparisionValue::I32(2)),
        ],
        cross(scan("a"), scan("b")),
    );
    let rows = sim.run(&q, &ctx).unwrap();
    assert_eq!(sorted(shown(&rows)), vec!["3|b3|3|a3|", "4|b4|4|a4|"]);
}

#[test]
fn a_row_larger_than_a_block_cannot_be_spilled() {
    let mut sim = Sim::new(BLOCK_SIZE);
    sim.add_file("a.tbl", &vec![vec![text(&"q".repeat(40))], vec![text("r")]]);
    let ctx = DbContext {
        table_specs: vec![table("a", vec![column("t", DataType::String, None)])],
    };
    let twice = cross(project(vec![("t", "u")], scan("a")), scan("a"));
    assert_eq!(sim.run(&twice, &ctx).unwrap().len(), 4);
    let thrice = cross(scan("a"), cross(project(vec![("t", "u")], scan("a")), scan("a")));
    assert!(sim.run(&thrice, &ctx).is_err());
}

#[test]
fn blocks_that_do_not_decode_fail_the_query() {
    let (mut sim, ctx) = people();
    let (start, _) = sim.files["people.tbl"];
    let mut bad = vec![0xffu8; BLOCK_SIZE];
    bad[BLOCK_SIZE - 2] = 1;
    bad[BLOCK_SIZE - 1] = 0;
    sim.blocks.insert(start, bad);
    assert_eq!(sim.run(&scan("people"), &ctx).unwrap_err(), "failed");
}

#[test]
fn sort_above_a_join_gives_the_whole_join_in_order() {
    let (mut sim, ctx) = two_tables(5, 9);
    let q = sort(vec![("b_name", false)], join_query());
    let rows = sim.run(&q, &ctx).unwrap();
    let names: Vec<String> = rows.iter().map(|r| show(&vec![r[1].clone()])).collect();
    assert_eq!(names, vec!["b8|", "b7|", "b6|", "b5|", "b4|", "b3|", "b2|", "b1|", "b0|"]);
}

#[test]
fn plan_errors_name_what_is_missing() {
    let e = PlanError::UnknownColumn("x".to_string());
    assert_eq!(format!("{:?}", e), "UnknownColumn(\"x\")");
    assert!(DataKey(num(1)) == DataKey(num(1)));
}

#[test]
fn rows_come_in_order_where_a_sort_is_left_out() {
    let (mut sim, ctx) = people();
    let inner = filter(
        vec![pred("name", ComparisionOperator::NE, ComparisionValue::String("name2".to_string()))],
        project(vec![("name", "name"), ("id", "id")], scan("people")),
    );
    let rows = sim.run(&sort(vec![("id", true)], inner), &ctx).unwrap();
    let ids: Vec<i32> = rows
        .iter()
        .map(|r| match r[1] {
            Data::Int32(n) => n,
            _ => panic!("no number"),
        })
        .collect();
    let expected: Vec<i32> = (0..30).filter(|i| i % 7 != 2).collect();
    assert_eq!(ids, expected);
    assert!(!sim.log.iter().any(|l| l.starts_with("put block")));
}

#[test]
fn nested_filters_and_crosses_are_one_join() {
    let (mut sim, ctx) = parts();
    let nested = filter(
        vec![pred("p_key", ComparisionOperator::EQ, col("ps_part"))],
        cross(
            filter(
                vec![
                    pred("s_key", ComparisionOperator::EQ, col("ps_supp")),
                    pred("ps_n", ComparisionOperator::LT, ComparisionValue::I32(9)),
                ],
                cross(scan("supplier"), scan("partsupp")),
            ),
            filter(
                vec![pred("p_key", ComparisionOperator::NE, ComparisionValue::I32(0))],
                scan("part"),
            ),
        ),
    );
    let named = vec![("ps_n", "n"), ("s_name", "s"), ("p_name", "p")];
    let rows = sim.run(&project(named, nested), &ctx).unwrap();
    let expected: Vec<String> = (0..9)
        .filter(|i| i % 6 != 0)
        .map(|i| format!("{}|s{}|p{}|", i, i % 4, i % 6))
        .collect();
    assert_eq!(sorted(shown(&rows)), sorted(expected));
}

#[test]
fn join_without_a_key_is_a_cross_product() {
    let (mut sim, ctx) = two_tables(3, 4);
    let q = filter(
        vec![pred("a_id", ComparisionOperator::LT, col("b_id"))],
        cross(scan("a"), scan("b")),
    );
    let mut disk = sim.manager();
    let mut facts = FileFacts::new();
    loop {
        match build_operator(&q, &ctx, &mut facts, &mut disk) {
            Build::Ready(node) => {
                let child = match node {
                    PlanNode::Filter(f) => *f.child,
                    _ => panic!("no filter"),
                };
                assert!(matches!(child, PlanNode::Cross(_)));
                break;
            }
            Build::Pending => sim.exchange(&mut disk),
            Build::Failed(_) => panic!("no plan"),
        }
    }
    let rows = sim.run(&q, &ctx).unwrap();
    assert_eq!(rows.len(), 6);
}

#[test]
fn small_joins_and_sorts_write_nothing() {
    let (mut sim, ctx) = two_tables(5, 9);
    let q = sort(vec![("b_name", true)], join_query());
    assert_eq!(sim.run(&q, &ctx).unwrap().len(), 9);
    assert!(!sim.log.iter().any(|l| l.starts_with("put block")));
}

#[test]
fn sort_is_made_where_a_projection_renames_another_column() {
    let mut sim = Sim::new(BLOCK_SIZE);
    let rows: Vec<Row> = (0..6).map(|i| vec![num(i), num((i * 5) % 6)]).collect();
    sim.add_file("t.tbl", &rows);
    let ctx = DbContext {
        table_specs: vec![table(
            "t",
            vec![
                column("a", DataType::Int32, Some(vec![ColumnStat::IsPhysicallyOrdered])),
                column("b", DataType::Int32, None),
            ],
        )],
    };
    let q = sort(vec![("a", true)], project(vec![("b", "a")], scan("t")));
    assert_eq!(shown(&sim.run(&q, &ctx).unwrap()), vec!["0|", "1|", "2|", "3|", "4|", "5|"]);
    let q = sort(vec![("c", true)], project(vec![("b", "a"), ("a", "c")], scan("t")));
    let mut disk = sim.manager();
    let mut facts = FileFacts::new();
    loop {
        match build_operator(&q, &ctx, &mut facts, &mut disk) {
            Build::Ready(node) => {
                assert!(matches!(node, PlanNode::Project(_)));
                break;
            }
            Build::Pending => sim.exchange(&mut disk),
            Build::Failed(_) => panic!("no plan"),
        }
    }
    let expected = vec!["0|0|", "5|1|", "4|2|", "3|3|", "2|4|", "1|5|"];
    assert_eq!(shown(&sim.run(&q, &ctx).unwrap()), expected);
}

#[test]
fn planning_asks_for_each_file_once() {
    let (mut sim, ctx) = two_tables(3, 4);
    sim.run(&cross(cross(scan("a"), scan("b")), scan("a")), &ctx).unwrap();
    let asked: Vec<&String> = sim.log.iter().filter(|l| l.starts_with("get file")).collect();
    assert_eq!(
        asked,
        vec![
            "get file start-block a.tbl\n",
            "get file num-blocks a.tbl\n",
            "get file start-block b.tbl\n",
            "get file num-blocks b.tbl\n",
        ]
    );
}

#[test]
fn cached_cross_reads_the_right_side_once() {
    let mut sim = Sim::new(BLOCK_SIZE);
    let a: Vec<Row> = (0..5).map(|i| vec![num(i)]).collect();
    let b: Vec<Row> = (0..130).map(|i| vec![text(&format!("{:0>50}", i))]).collect();
    sim.add_file("a.tbl", &a);
    sim.add_file("b.tbl", &b);
    let ctx = DbContext {
        table_specs: vec![
            table("a", vec![column("x", DataType::Int32, None)]),
            table("b", vec![column("y", DataType::String, None)]),
        ],
    };
    let rows = sim.run(&cross(scan("a"), scan("b")), &ctx).unwrap();
    assert_eq!(rows.len(), 5 * 130);
    let talk: Vec<&String> = sim.log.iter().filter(|l| !l.starts_with("get file")).collect();
    assert_eq!(
        talk,
        vec![
            "get block 1 64\n",
            "get block 65 64\n",
            "put block 131 64\n",
            "get block 129 2\n",
            "put block 195 64\n",
            "put block 259 2\n",
            "get block 131 64\n",
            "get block 195 64\n",
            "get block 259 2\n",
            "get block 0 1\n",
        ]
    );
}

#[test]
fn blocks_without_room_for_a_count_hold_no_rows() {
    let mut sim = Sim::new(1);
    sim.files.insert("e.tbl".to_string(), (0, 0));
    sim.files.insert("f.tbl".to_string(), (0, 1));
    sim.blocks.insert(0, vec![0]);
    sim.anon_start = 1;
    let ctx = DbContext {
        table_specs: vec![
            table("e", vec![column("x", DataType::Int32, None)]),
            table("f", vec![column("y", DataType::Int32, None)]),
        ],
    };
    assert_eq!(sim.run(&scan("e"), &ctx).unwrap().len(), 0);
    assert!(sim.run(&scan("f"), &ctx).is_err());
    assert!(sim.run(&cross(scan("e"), scan("e")), &ctx).is_err());
}

fn file_questions(sim: &Sim) -> Vec<String> {
    sim.log.iter().filter(|l| l.starts_with("get file")).cloned().collect()
}

#[test]
fn planning_asks_only_on_the_tables_of_the_query() {
    let (mut sim, ctx) = two_tables(3, 4);
    sim.run(&sort(vec![("b_name", true)], scan("b")), &ctx).unwrap();
    assert_eq!(
        file_questions(&sim),
        vec!["get file start-block b.tbl\n", "get file num-blocks b.tbl\n"]
    );
}

#[test]
fn nothing_is_asked_behind_an_unknown_table() {
    let (mut sim, ctx) = two_tables(3, 4);
    assert!(sim.run(&cross(scan("nowhere"), scan("a")), &ctx).is_err());
    assert!(sim.log.is_empty());
    assert!(sim.run(&cross(scan("a"), cross(scan("nowhere"), scan("b"))), &ctx).is_err());
    assert_eq!(
        sim.log,
        vec!["get file start-block a.tbl\n", "get file num-blocks a.tbl\n"]
    );
}

#[test]
fn sort_in_memory_asks_for_no_more_than_the_scan() {
    let (mut plain, ctx) = people();
    plain.run(&scan("people"), &ctx).unwrap();
    let (mut sim, ctx) = people();
    sim.run(&sort(vec![("name", false)], scan("people")), &ctx).unwrap();
    assert_eq!(sim.log, plain.log);
}

#[test]
fn hash_join_in_memory_asks_for_no_more_than_the_scans() {
    let (mut a, ctx) = two_tables(5, 9);
    a.run(&scan("a"), &ctx).unwrap();
    let (mut b, ctx) = two_tables(5, 9);
    b.run(&scan("b"), &ctx).unwrap();
    let (mut sim, ctx) = two_tables(5, 9);
    sim.run(&join_query(), &ctx).unwrap();
    let mut expected: Vec<String> = a.log.into_iter().chain(b.log).collect();
    expected.sort();
    let mut log = sim.log;
    log.sort();
    assert_eq!(log, expected);
}

/// How often each block from `from` on is asked for or written.
fn uses(sim: &Sim, verb: &str, from: u64) -> HashMap<u64, usize> {
    let mut counts = HashMap::new();
    for line in sim.log.iter().filter(|l| l.starts_with(verb)) {
        let words: Vec<&str> = line.trim_end().split(' ').collect();
        let start: u64 = words[2].parse().unwrap();
        let n: u64 = words[3].parse().unwrap();
        for b in (start..start + n).filter(|b| *b >= from) {
            *counts.entry(b).or_insert(0) += 1;
        }
    }
    counts
}

#[test]
fn sort_writes_and_reads_every_block_of_its_runs_once() {
    let (mut sim, ctx) = big(250, 100_000, 131_072);
    sim.run(&sort(vec![("key", true)], scan("big")), &ctx).unwrap();
    let written = uses(&sim, "put block", 250);
    assert_eq!(written.len(), 250);
    assert!(written.values().all(|n| *n == 1));
    assert_eq!(written, uses(&sim, "get block", 250));
    // Three readers share 16 MB, at 256 KB for a decoded block: 21 blocks for each.
    let reads: Vec<&String> = sim.log.iter().filter(|l| l.starts_with("get block")).collect();
    let of_runs = reads.iter().filter(|l| l.ends_with(" 21\n")).count();
    assert_eq!(of_runs, 5 + 5 + 1);
    assert!(reads.contains(&&"get block 481 19\n".to_string()));
}

#[test]
fn hash_join_writes_and_reads_every_block_of_its_partitions_once() {
    let mut sim = Sim::new(131_072);
    let a: Vec<Row> = (0..400).map(|i| vec![num(i % 50), num(i)]).collect();
    let b: Vec<Row> = (0..200).map(|i| vec![num(i % 60), text(&"z".repeat(100_000))]).collect();
    sim.add_file("a.tbl", &a);
    sim.add_file("b.tbl", &b);
    let big_stat = Some(vec![ColumnStat::CardinalityStat(CardinalityData(1_000_000))]);
    let ctx = DbContext {
        table_specs: vec![
            table(
                "a",
                vec![column("ak", DataType::Int32, big_stat), column("an", DataType::Int32, None)],
            ),
            table(
                "b",
                vec![column("bk", DataType::Int32, None), column("pad", DataType::String, None)],
            ),
        ],
    };
    let q = filter(
        vec![pred("ak", ComparisionOperator::EQ, col("bk"))],
        cross(scan("a"), scan("b")),
    );
    sim.run(&q, &ctx).unwrap();
    let written = uses(&sim, "put block", sim.anon_start);
    assert!(written.len() >= 200);
    assert!(written.values().all(|n| *n == 1));
    assert_eq!(written, uses(&sim, "get block", sim.anon_start));
}
