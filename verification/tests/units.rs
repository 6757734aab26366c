//! The parts of the library one by one.

use database::block::{decode_block, rows_to_blocks, try_decode_block, try_rows_to_blocks, BlockPacker};
use database::bytes::{compare_bytes, Order};
use database::catalog::{ColumnSpec, DbContext, TableSpec};
use database::data::{Data, DataType};
use database::disk::{DiskCommand, DiskManager};
use database::executor::filter::evaluate_predicate;
use database::executor::order::{compare_by_specs, sort_by_specs};
use database::executor::partition;
use database::executor::sorter::{estimate_row_bytes, merge_batch_blocks};
use database::executor::sortkey::{encode_key_value, encode_sort_key, knows_all};
use database::facts::FileFacts;
use database::format::{format_row, format_value};
use database::key::{hash_key, hash_partition, make_join_key, same_key, DataKey};
use database::query::{ComparisionOperator, ComparisionValue, Predicate, SortSpec};
use database::row::{decode_row_at, encode_row, find_column, Row, Schema};
use database::session::{begin_line, end_line, memory_question};
use database::text::parse_line;

fn text(s: &str) -> Data {
    Data::String(s.to_string())
}

fn single(x: f32) -> Data {
    Data::Float32(x.to_bits())
}

fn double(x: f64) -> Data {
    Data::Float64(x.to_bits())
}

fn same(a: &Row, b: &Row) -> bool {
    a.len() == b.len()
        && a.iter().zip(b.iter()).all(|(x, y)| DataKey(x.clone()) == DataKey(y.clone()))
}

fn same_rows(a: &Vec<Row>, b: &Vec<Row>) -> bool {
    a.len() == b.len() && a.iter().zip(b.iter()).all(|(x, y)| same(x, y))
}

fn schema(columns: Vec<(&str, DataType)>) -> Schema {
    columns.into_iter().map(|(name, kind)| (name.to_string(), kind)).collect()
}

fn by(specs: Vec<(&str, bool)>) -> Vec<SortSpec> {
    specs
        .into_iter()
        .map(|(name, ascending)| SortSpec { column_name: name.to_string(), ascending })
        .collect()
}

// ── Rows and blocks ──────────────────────────────────────────────────────────

fn all_types() -> Schema {
    schema(vec![
        ("a", DataType::Int32),
        ("b", DataType::Int64),
        ("c", DataType::Float32),
        ("d", DataType::Float64),
        ("e", DataType::String),
    ])
}

fn wide_row() -> Row {
    vec![
        Data::Int32(-2),
        Data::Int64(i64::MIN),
        single(1.5),
        double(-0.25),
        text("grüße €"),
    ]
}

#[test]
fn row_bytes_are_little_endian_with_terminated_text() {
    let bytes = encode_row(&vec![Data::Int32(258), Data::Int32(-1), text("ab")]);
    assert_eq!(bytes, vec![2, 1, 0, 0, 255, 255, 255, 255, 97, 98, 0]);
    let bytes = encode_row(&vec![Data::Int64(-2), single(1.0), double(1.0)]);
    assert_eq!(
        bytes,
        vec![254, 255, 255, 255, 255, 255, 255, 255, 0, 0, 128, 63, 0, 0, 0, 0, 0, 0, 240, 63]
    );
}

#[test]
fn row_is_read_back_from_its_bytes() {
    let row = wide_row();
    let mut bytes = vec![9u8];
    bytes.extend(encode_row(&row));
    bytes.push(77);
    let (back, end) = decode_row_at(&bytes, 1, &all_types()).unwrap();
    assert!(same(&back, &row));
    assert_eq!(end, bytes.len() - 1);
}

#[test]
fn row_that_is_cut_off_or_no_text_is_refused() {
    let bytes = encode_row(&wide_row());
    assert!(decode_row_at(&bytes[..bytes.len() - 1], 0, &all_types()).is_none());
    assert!(decode_row_at(&bytes[..3], 0, &all_types()).is_none());
    let s = schema(vec![("t", DataType::String)]);
    assert!(decode_row_at(&[0xff, 0xfe, 0], 0, &s).is_none());
    assert!(decode_row_at(&[0xc3, 0xa9, 0], 0, &s).is_some());
}

#[test]
fn blocks_hold_rows_a_count_and_zeros() {
    let rows: Vec<Row> = vec![vec![Data::Int32(1)], vec![Data::Int32(2)], vec![Data::Int32(3)]];
    let bytes = rows_to_blocks(&rows, 10);
    assert_eq!(
        bytes,
        vec![1, 0, 0, 0, 2, 0, 0, 0, 2, 0, 3, 0, 0, 0, 0, 0, 0, 0, 1, 0]
    );
    let s = schema(vec![("n", DataType::Int32)]);
    assert!(same_rows(&decode_block(&bytes[..10], &s), &rows[..2].to_vec()));
    assert!(same_rows(&decode_block(&bytes[10..], &s), &rows[2..].to_vec()));
}

#[test]
fn no_rows_still_make_a_block() {
    assert_eq!(rows_to_blocks(&vec![], 8), vec![0; 8]);
}

#[test]
fn row_larger_than_a_block_is_refused() {
    let rows: Vec<Row> = vec![vec![text("abcdef")]];
    assert!(try_rows_to_blocks(&rows, 8).is_none());
    assert_eq!(try_rows_to_blocks(&rows, 9).unwrap().len(), 9);
    assert!(try_rows_to_blocks(&vec![], 1).is_none());
}

#[test]
fn rows_survive_blocks() {
    let rows: Vec<Row> = (0..50)
        .map(|i| {
            let mut row = wide_row();
            row[0] = Data::Int32(i);
            row[4] = text(&"x".repeat(i as usize % 9));
            row
        })
        .collect();
    let bytes = rows_to_blocks(&rows, 128);
    assert_eq!(bytes.len() % 128, 0);
    let mut back = Vec::new();
    for chunk in bytes.chunks(128) {
        back.extend(decode_block(chunk, &all_types()));
    }
    assert!(same_rows(&back, &rows));
}

#[test]
fn block_that_counts_too_many_rows_is_refused() {
    let s = schema(vec![("n", DataType::Int32)]);
    assert!(try_decode_block(&[1, 0, 0, 0, 2, 0], &s).is_none());
    assert_eq!(try_decode_block(&[1, 0, 0, 0, 1, 0], &s).unwrap().len(), 1);
    assert!(try_decode_block(&[1], &s).is_none());
    assert_eq!(BlockPacker { block_size: 8, full: vec![], open: vec![], count: 0 }.count, 0);
}

// ── Order ────────────────────────────────────────────────────────────────────

#[test]
fn values_compare_by_size_and_text_by_bytes() {
    assert_eq!(Data::Int32(-1).compare(&Data::Int32(1)), Some(Order::Less));
    assert_eq!(Data::Int64(5).compare(&Data::Int64(5)), Some(Order::Equal));
    assert_eq!(single(-2.0).compare(&single(-3.0)), Some(Order::Greater));
    assert_eq!(double(-0.0).compare(&double(0.0)), Some(Order::Equal));
    assert_eq!(double(f64::NAN).compare(&double(0.0)), None);
    assert_eq!(text("a").compare(&text("b")), Some(Order::Less));
    assert_eq!(text("ab").compare(&text("a")), Some(Order::Greater));
    assert!(double(0.0).equals(&double(-0.0)));
    assert!(!double(f64::NAN).equals(&double(f64::NAN)));
    assert_eq!(compare_bytes(&[1, 2], &[1, 3]), Order::Less);
}

#[test]
fn values_of_different_types_compare_by_type() {
    assert_eq!(Data::Int32(9).compare(&Data::Int64(1)), Some(Order::Less));
    assert!(!Data::Int32(1).equals(&Data::Int64(1)));
}

#[test]
fn rows_compare_by_the_first_column_that_differs() {
    let s = schema(vec![("a", DataType::Int32), ("b", DataType::String)]);
    let x = vec![Data::Int32(1), text("p")];
    let y = vec![Data::Int32(1), text("q")];
    assert_eq!(compare_by_specs(&x, &y, &by(vec![("a", true), ("b", true)]), &s), Some(Order::Less));
    assert_eq!(
        compare_by_specs(&x, &y, &by(vec![("a", true), ("b", false)]), &s),
        Some(Order::Greater)
    );
    assert_eq!(compare_by_specs(&x, &y, &by(vec![("a", true)]), &s), Some(Order::Equal));
    assert_eq!(compare_by_specs(&x, &y, &by(vec![("a", true), ("z", true)]), &s), None);
    assert_eq!(
        compare_by_specs(&x, &y, &by(vec![("b", true), ("z", true)]), &s),
        Some(Order::Less)
    );
}

#[test]
fn sorting_keeps_equal_rows_in_their_order() {
    let s = schema(vec![("k", DataType::Int32), ("n", DataType::Int32)]);
    let rows: Vec<Row> =
        (0..40).map(|i| vec![Data::Int32((i * 7) % 5), Data::Int32(i)]).collect();
    let sorted = sort_by_specs(&rows, &by(vec![("k", false)]), &s).unwrap();
    let mut expected = rows;
    expected.sort_by_key(|r| match r[0] {
        Data::Int32(k) => -k,
        _ => 0,
    });
    assert!(same_rows(&sorted, &expected));
}

// ── Sort keys ────────────────────────────────────────────────────────────────

#[test]
fn sort_key_bytes() {
    let mut out = vec![7u8];
    encode_key_value(&Data::Int32(1), true, &mut out);
    assert_eq!(out, vec![7, 0x80, 0, 0, 1]);
    let mut out = Vec::new();
    encode_key_value(&Data::Int32(-1), false, &mut out);
    assert_eq!(out, vec![0x80, 0, 0, 0]);
    let mut out = Vec::new();
    encode_key_value(&single(1.0), true, &mut out);
    assert_eq!(out, vec![0xbf, 0x80, 0, 0]);
    let mut out = Vec::new();
    encode_key_value(&double(-1.0), true, &mut out);
    assert_eq!(out, vec![0x40, 0x0f, 255, 255, 255, 255, 255, 255]);
    let mut out = Vec::new();
    encode_key_value(&text("ab"), true, &mut out);
    encode_key_value(&text("a"), false, &mut out);
    assert_eq!(out, vec![97, 98, 0, 158, 255]);
    let mut out = Vec::new();
    encode_key_value(&Data::Int64(0), true, &mut out);
    assert_eq!(out, vec![0x80, 0, 0, 0, 0, 0, 0, 0]);
}

#[test]
fn sort_keys_are_in_the_order_of_the_rows() {
    let s = schema(vec![
        ("f", DataType::Float64),
        ("t", DataType::String),
        ("n", DataType::Int32),
    ]);
    let specs = by(vec![("t", false), ("f", true), ("n", false)]);
    assert!(knows_all(&specs, &s));
    assert!(!knows_all(&by(vec![("z", true)]), &s));
    let mut rows: Vec<Row> = Vec::new();
    for f in [-1.5, -1e300, 0.0, 2.0, 1e-300, f64::INFINITY, f64::NEG_INFINITY] {
        for t in ["", "a", "ab", "b", "é"] {
            for n in [i32::MIN, -1, 0, i32::MAX] {
                rows.push(vec![double(f), text(t), Data::Int32(n)]);
            }
        }
    }
    for x in &rows {
        for y in &rows {
            let by_rows = compare_by_specs(x, y, &specs, &s).unwrap();
            let by_keys =
                compare_bytes(&encode_sort_key(x, &specs, &s), &encode_sort_key(y, &specs, &s));
            assert_eq!(by_rows, by_keys);
        }
    }
}

#[test]
fn sort_keys_tell_the_two_zeros_apart() {
    let s = schema(vec![("f", DataType::Float64), ("n", DataType::Int32)]);
    let specs = by(vec![("f", true), ("n", true)]);
    let x = vec![double(-0.0), Data::Int32(2)];
    let y = vec![double(0.0), Data::Int32(1)];
    assert_eq!(compare_by_specs(&x, &y, &specs, &s), Some(Order::Greater));
    let by_keys =
        compare_bytes(&encode_sort_key(&x, &specs, &s), &encode_sort_key(&y, &specs, &s));
    assert_eq!(by_keys, Order::Less);
}

#[test]
fn memory_estimates() {
    let row = vec![Data::Int32(1), Data::Int64(1), single(1.0), double(1.0), text("abc")];
    assert_eq!(estimate_row_bytes(&row), 32 + 4 * 16 + 35);
    assert_eq!(partition::estimate_row_bytes(&row), 32 + 4 * 8 + 35);
    assert_eq!(estimate_row_bytes(&vec![]), 32);
}

#[test]
fn merge_batches_share_the_budget() {
    assert_eq!(merge_batch_blocks(1, 4096), 64);
    assert_eq!(merge_batch_blocks(32, 4096), 64);
    assert_eq!(merge_batch_blocks(33, 4096), 62);
    assert_eq!(merge_batch_blocks(2048, 4096), 1);
    assert_eq!(merge_batch_blocks(5000, 4096), 1);
}

// ── Filters ──────────────────────────────────────────────────────────────────

#[test]
fn predicates_compare_columns_and_constants() {
    let s = schema(vec![("a", DataType::Int32), ("b", DataType::Int32), ("f", DataType::Float32)]);
    let row = vec![Data::Int32(3), Data::Int32(4), single(f32::NAN)];
    let p = |column: &str, operator, value| Predicate {
        column_name: column.to_string(),
        operator,
        value,
    };
    let col = |name: &str| ComparisionValue::Column(name.to_string());
    let holds = |pred: &Predicate| evaluate_predicate(&row, &s, pred);
    assert_eq!(holds(&p("a", ComparisionOperator::LT, col("b"))), Some(true));
    assert_eq!(holds(&p("a", ComparisionOperator::EQ, col("b"))), Some(false));
    assert_eq!(holds(&p("a", ComparisionOperator::GTE, ComparisionValue::I32(3))), Some(true));
    assert_eq!(holds(&p("a", ComparisionOperator::NE, ComparisionValue::I64(3))), Some(true));
    assert_eq!(holds(&p("a", ComparisionOperator::LT, ComparisionValue::I64(0))), Some(true));
    let one = ComparisionValue::F32(1.0f32.to_bits());
    assert_eq!(holds(&p("f", ComparisionOperator::LTE, one)), Some(false));
    assert_eq!(holds(&p("f", ComparisionOperator::NE, col("f"))), Some(true));
    assert_eq!(holds(&p("z", ComparisionOperator::EQ, col("a"))), None);
    assert_eq!(holds(&p("a", ComparisionOperator::EQ, col("z"))), None);
    assert_eq!(find_column(&s, &"f".to_string()), Some(2));
}

// ── Join keys ────────────────────────────────────────────────────────────────

#[test]
fn join_keys_pick_columns_and_compare_bits() {
    let row = vec![Data::Int32(1), text("x"), double(0.0)];
    let key = make_join_key(&row, &vec![2, 0]);
    assert_eq!(key.len(), 2);
    assert!(key[0] == DataKey(double(0.0)));
    assert!(key[1] == DataKey(Data::Int32(1)));
    assert!(key[0] != DataKey(double(-0.0)));
    assert!(DataKey(double(f64::NAN)) == DataKey(double(f64::NAN)));
    assert!(DataKey(Data::Int32(1)) != DataKey(Data::Int64(1)));
    assert!(same_key(&key, &make_join_key(&row, &vec![2, 0])));
    assert!(!same_key(&key, &make_join_key(&row, &vec![0, 2])));
    assert!(!same_key(&key, &make_join_key(&row, &vec![2])));
}

#[test]
fn equal_keys_go_to_the_same_partition() {
    let mut seen = vec![false; 16];
    for i in 0..500 {
        let row = vec![Data::Int32(i), text(&format!("k{}", i))];
        let other = vec![text(&format!("k{}", i)), Data::Int32(i)];
        let a = make_join_key(&row, &vec![0, 1]);
        let b = make_join_key(&other, &vec![1, 0]);
        assert_eq!(hash_key(&a), hash_key(&b));
        let p = hash_partition(&a, 16);
        assert!(p < 16);
        assert_eq!(p, hash_partition(&b, 16));
        assert_eq!(p as u64, hash_key(&a) % 16);
        seen[p] = true;
    }
    assert!(seen.iter().all(|s| *s));
}

// ── Text ─────────────────────────────────────────────────────────────────────

fn shown32(x: f32) -> String {
    format_value(&single(x), &x.to_string())
}

fn shown64(x: f64) -> String {
    format_value(&double(x), &x.to_string())
}

#[test]
fn numbers_as_text() {
    assert_eq!(format_value(&Data::Int32(i32::MIN), &String::new()), "-2147483648");
    assert_eq!(format_value(&Data::Int64(i64::MIN), &String::new()), "-9223372036854775808");
    assert_eq!(format_value(&Data::Int64(0), &String::new()), "0");
    assert_eq!(format_value(&text("a|b"), &String::new()), "a|b");
}

#[test]
fn floats_as_text() {
    assert_eq!(shown64(0.0), "0.0");
    assert_eq!(shown64(-0.0), "-0.0");
    assert_eq!(shown64(27.0), "27.0");
    assert_eq!(shown64(-1024.0), "-1024.0");
    assert_eq!(shown64(39890.88), "39890.88");
    assert_eq!(shown64(0.06), "0.06");
    assert_eq!(shown64(0.5), "0.5");
    assert_eq!(shown64(999999999999999.0), "999999999999999.0");
    assert_eq!(shown64(1e15), "1000000000000000");
    assert_eq!(shown64(2251799813685249.5), "2251799813685249.5");
    assert_eq!(shown64(f64::NAN), "NaN");
    assert_eq!(shown64(f64::INFINITY), "Inf");
    assert_eq!(shown64(f64::NEG_INFINITY), "-Inf");
    assert_eq!(shown32(1.0), "1.0");
    assert_eq!(shown32(-0.0), "-0.0");
    assert_eq!(shown32(16777216.0), "16777216.0");
    assert_eq!(shown32(1e14), "100000000376832.0");
    assert_eq!(shown32(1e15), "1000000000000000");
    assert_eq!(shown32(0.1), "0.1");
    assert_eq!(1e15f32.to_bits(), 0x5863_5fa9);
    let below = f32::from_bits(0x5863_5fa8);
    assert_eq!(shown32(below), format!("{:.1}", below));
    assert_eq!(shown32(f32::NAN), "NaN");
    assert_eq!(shown32(f32::NEG_INFINITY), "-Inf");
}

#[test]
fn whole_floats_as_text_agree_with_one_decimal() {
    for n in 0..2000u64 {
        let x = (n * n * 7919) as f64;
        assert_eq!(shown64(x), format!("{:.1}", x));
        assert_eq!(shown64(-x), format!("{:.1}", -x));
        let y = (n * 131071) as f32;
        assert_eq!(shown32(y), format!("{:.1}", y));
    }
}

#[test]
fn rows_as_text_have_a_bar_behind_each_value() {
    let row = vec![Data::Int32(1), text("x"), double(2.5)];
    let shown = vec![String::new(), String::new(), "2.5".to_string()];
    assert_eq!(format_row(&row, &shown), "1|x|2.5|");
    assert_eq!(format_row(&vec![], &vec![]), "");
}

#[test]
fn protocol_lines() {
    assert_eq!(memory_question(), "get_memory_limit\n");
    assert_eq!(begin_line(), "validate\n");
    assert_eq!(end_line(), "!\n");
}

#[test]
fn answer_lines_are_numbers() {
    assert_eq!(parse_line(b"4096\n"), Some(4096));
    assert_eq!(parse_line(b"0\r\n"), Some(0));
    assert_eq!(parse_line(b"+17"), Some(17));
    assert_eq!(parse_line(b"18446744073709551615\n"), Some(u64::MAX));
    assert_eq!(parse_line(b"18446744073709551616\n"), None);
    assert_eq!(parse_line(b"\n"), None);
    assert_eq!(parse_line(b" 1\n"), None);
    assert_eq!(parse_line(b"-1\n"), None);
    assert_eq!(parse_line(b"1x\n"), None);
}

// ── Disk ─────────────────────────────────────────────────────────────────────

fn headers(commands: &Vec<DiskCommand>) -> Vec<&str> {
    commands.iter().map(|c| c.header.as_str()).collect()
}

#[test]
fn disk_knows_its_block_size_and_first_free_block() {
    assert_eq!(DiskManager::query_block_size(), "get block-size\n");
    assert_eq!(DiskManager::query_anon_start(), "get anon-start-block\n");
    let disk = DiskManager::new(b"4096\n", b"17\n").unwrap();
    assert_eq!(disk.block_size(), 4096);
    assert_eq!(disk.anon_start(), 17);
    assert!(DiskManager::new(b"x\n", b"17\n").is_none());
    assert!(DiskManager::new(b"4096\n", b"\n").is_none());
    assert_eq!(DiskManager::new(b"1\n", b"17\n").unwrap().block_size(), 1);
    assert_eq!(DiskManager::new(b"0\n", b"17\n").unwrap().block_size(), 0);
}

#[test]
fn disk_reads_in_two_steps() {
    let mut disk = DiskManager::new(b"4\n", b"10\n").unwrap();
    assert!(disk.read_blocks(3, 2).is_none());
    let commands = disk.take_commands();
    assert_eq!(headers(&commands), vec!["get block 3 2\n"]);
    assert_eq!(disk.awaited_bytes(), Some(8));
    assert!(!disk.awaits_line());
    assert!(disk.read_blocks(3, 2).is_none());
    assert!(disk.take_commands().is_empty());
    disk.deliver_blocks(vec![1, 2, 3, 4, 5, 6, 7, 8]);
    assert_eq!(disk.awaited_bytes(), None);
    assert_eq!(disk.read_blocks(3, 2), Some(vec![1, 2, 3, 4, 5, 6, 7, 8]));
    assert!(disk.read_blocks(3, 2).is_none());
}

#[test]
fn disk_writes_and_hands_out_blocks_that_do_not_overlap() {
    let mut disk = DiskManager::new(b"4\n", b"10\n").unwrap();
    assert_eq!(disk.alloc_anon_blocks(3), 10);
    assert_eq!(disk.alloc_anon_blocks(2), 13);
    disk.write_blocks(10, vec![0; 12]);
    assert_eq!(disk.store(vec![9; 8]), Some((15, 2)));
    assert_eq!(disk.alloc_anon_blocks(1), 17);
    let commands = disk.take_commands();
    assert_eq!(headers(&commands), vec!["put block 10 3\n", "put block 15 2\n"]);
    assert_eq!(commands[1].payload, vec![9; 8]);
}

#[test]
fn disk_runs_out_of_block_numbers() {
    let mut disk = DiskManager::new(b"4\n", b"18446744073709551614\n").unwrap();
    assert_eq!(disk.store(vec![0; 4]), Some((u64::MAX - 1, 1)));
    assert_eq!(disk.store(vec![0; 8]), None);
    assert_eq!(disk.take_commands().len(), 1);
}

#[test]
fn disk_is_asked_for_a_file_by_every_call() {
    let mut disk = DiskManager::new(b"4\n", b"10\n").unwrap();
    let id = "t.tbl".to_string();
    for answer in [6, 7] {
        assert_eq!(disk.get_file_start_block(&id), None);
        assert!(disk.awaits_line());
        assert_eq!(headers(&disk.take_commands()), vec!["get file start-block t.tbl\n"]);
        assert!(!disk.deliver_line(b"none\n"));
        assert!(disk.deliver_line(format!("{}\n", answer).as_bytes()));
        assert_eq!(disk.get_file_start_block(&"other".to_string()), None);
        assert_eq!(disk.get_file_num_blocks(&id), None);
        assert!(disk.take_commands().is_empty());
        assert_eq!(disk.get_file_start_block(&id), Some(answer));
    }
    for answer in [2, 3] {
        assert_eq!(disk.get_file_num_blocks(&id), None);
        assert_eq!(headers(&disk.take_commands()), vec!["get file num-blocks t.tbl\n"]);
        assert!(disk.deliver_line(format!("{}\r\n", answer).as_bytes()));
        assert_eq!(disk.get_file_num_blocks(&id), Some(answer));
    }
}

#[test]
fn facts_keep_what_the_disk_has_answered() {
    let mut disk = DiskManager::new(b"4\n", b"10\n").unwrap();
    let mut facts = FileFacts::new();
    let id = "t.tbl".to_string();
    assert_eq!(facts.start_of(&id, &mut disk), None);
    assert!(disk.deliver_line(b"6\n"));
    facts.learn(&mut disk);
    assert_eq!(facts.start_of(&id, &mut disk), Some(6));
    assert_eq!(facts.size_of(&id, &mut disk), None);
    assert!(disk.deliver_line(b"2\n"));
    facts.learn(&mut disk);
    assert_eq!(facts.size_of(&id, &mut disk), Some(2));
    assert_eq!(disk.take_commands().len(), 2);
}

// ── Catalog ──────────────────────────────────────────────────────────────────

#[test]
fn tables_are_found_by_name() {
    let table = |name: &str| TableSpec {
        name: name.to_string(),
        file_id: format!("{}.tbl", name),
        column_specs: vec![ColumnSpec {
            column_name: "c".to_string(),
            data_type: DataType::Int64,
            stats: None,
        }],
    };
    let ctx = DbContext { table_specs: vec![table("a"), table("b")] };
    assert_eq!(ctx.get_table_specs().len(), 2);
    assert_eq!(ctx.find_table(&"b".to_string()).unwrap().file_id, "b.tbl");
    assert!(ctx.find_table(&"c".to_string()).is_none());
    let s = ctx.find_table(&"a".to_string()).unwrap().schema();
    assert_eq!(s, vec![("c".to_string(), DataType::Int64)]);
}

#[test]
fn rows_take_the_fewest_blocks_in_their_order() {
    let mut seed: u32 = 7;
    for _ in 0..40 {
        let mut rows: Vec<Row> = Vec::new();
        let mut lens: Vec<usize> = Vec::new();
        for _ in 0..24 {
            seed = seed.wrapping_mul(1_103_515_245).wrapping_add(12_345);
            let n = (seed >> 16) as usize % 28;
            rows.push(vec![text(&"x".repeat(n))]);
            lens.push(n + 1);
        }
        // fewest[i] is the least number of groups of at most 30 bytes for the first i rows.
        let mut fewest = vec![0; rows.len() + 1];
        for i in 1..=rows.len() {
            let mut best = usize::MAX;
            let mut bytes = 0;
            for j in (0..i).rev() {
                bytes += lens[j];
                if bytes > 30 {
                    break;
                }
                best = best.min(fewest[j] + 1);
            }
            fewest[i] = best;
        }
        assert_eq!(rows_to_blocks(&rows, 32).len(), 32 * fewest[rows.len()]);
    }
}

#[test]
fn join_keys_can_be_copied() {
    let key = DataKey(text("k"));
    assert!(key.clone() == key);
}
