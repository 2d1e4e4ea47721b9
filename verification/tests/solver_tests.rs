use cp_solver::cp_solver::ExprIntervalGraph;
use cp_solver::cp_solver::PropagationResult;
use cp_solver::expr::Expr;
use cp_solver::expr::Operator;
use cp_solver::interval::Interval;
use cp_solver::scalar::ScalarValue;

use rand::rngs::StdRng;
use rand::Rng;
use rand::SeedableRng;

fn col(name: &str, index: usize) -> Expr {
    Expr::Column(name.to_string(), index)
}

fn lit(v: i32) -> Expr {
    Expr::Literal(ScalarValue::Int32(Some(v)))
}

fn bin(l: Expr, op: Operator, r: Expr) -> Expr {
    Expr::Binary(Box::new(l), op, Box::new(r))
}

fn i32_interval(lower: Option<i32>, upper: Option<i32>) -> Interval {
    Interval {
        lower: ScalarValue::Int32(lower),
        upper: ScalarValue::Int32(upper),
    }
}

/// Builds `(left op_1 a) > (right op_2 b) AND (left op_3 c) < (right op_4 d)`.
fn gen_conjunctive_numeric_expr(
    left_col: Expr,
    right_col: Expr,
    op_1: Operator,
    op_2: Operator,
    op_3: Operator,
    op_4: Operator,
    a: i32,
    b: i32,
    c: i32,
    d: i32,
) -> Expr {
    let left_and_1 = bin(left_col.clone(), op_1, lit(a));
    let left_and_2 = bin(right_col.clone(), op_2, lit(b));
    let right_and_1 = bin(left_col, op_3, lit(c));
    let right_and_2 = bin(right_col, op_4, lit(d));
    let left_expr = bin(left_and_1, Operator::Gt, left_and_2);
    let right_expr = bin(right_and_1, Operator::Lt, right_and_2);
    bin(left_expr, Operator::And, right_expr)
}

fn experiment(
    expr: Expr,
    exprs_with_interval: (Expr, Expr),
    left_interval: (Option<i32>, Option<i32>),
    right_interval: (Option<i32>, Option<i32>),
    left_waited: (Option<i32>, Option<i32>),
    right_waited: (Option<i32>, Option<i32>),
    result: PropagationResult,
) {
    let col_stats = vec![
        (
            exprs_with_interval.0.clone(),
            i32_interval(left_interval.0, left_interval.1),
        ),
        (
            exprs_with_interval.1.clone(),
            i32_interval(right_interval.0, right_interval.1),
        ),
    ];
    let expected = vec![
        (
            exprs_with_interval.0.clone(),
            i32_interval(left_waited.0, left_waited.1),
        ),
        (
            exprs_with_interval.1.clone(),
            i32_interval(right_waited.0, right_waited.1),
        ),
    ];
    let mut graph = ExprIntervalGraph::try_new(expr).unwrap();
    let keys: Vec<Expr> = col_stats.iter().map(|(e, _)| e.clone()).collect();
    let expr_indexes = graph.gather_node_indices(&keys);

    let mut col_stat_nodes: Vec<(usize, Interval)> = col_stats
        .iter()
        .zip(expr_indexes.iter())
        .map(|((_, interval), (_, index))| (*index, interval.clone()))
        .collect();
    let expected_nodes: Vec<(usize, Interval)> = expected
        .iter()
        .zip(expr_indexes.iter())
        .map(|((_, interval), (_, index))| (*index, interval.clone()))
        .collect();

    let exp_result = graph.update_ranges(&mut col_stat_nodes).unwrap();
    assert_eq!(exp_result, result);
    col_stat_nodes
        .iter()
        .zip(expected_nodes.iter())
        .for_each(|((_, res), (_, expected))| assert_eq!(res, expected));
}

fn generate_case(
    asc: bool,
    expr: Expr,
    left_col: Expr,
    right_col: Expr,
    seed: u64,
    expr_left: i32,
    expr_right: i32,
) {
    let mut r = StdRng::seed_from_u64(seed);

    let (left_interval, right_interval, left_waited, right_waited) = if asc {
        let left = (Some(r.gen_range(0..1000)), None);
        let right = (Some(r.gen_range(0..1000)), None);
        (
            left,
            right,
            (
                Some(std::cmp::max(left.0.unwrap(), right.0.unwrap() + expr_left)),
                None,
            ),
            (
                Some(std::cmp::max(
                    right.0.unwrap(),
                    left.0.unwrap() + expr_right,
                )),
                None,
            ),
        )
    } else {
        let left = (None, Some(r.gen_range(0..1000)));
        let right = (None, Some(r.gen_range(0..1000)));
        (
            left,
            right,
            (
                None,
                Some(std::cmp::min(left.1.unwrap(), right.1.unwrap() + expr_left)),
            ),
            (
                None,
                Some(std::cmp::min(
                    right.1.unwrap(),
                    left.1.unwrap() + expr_right,
                )),
            ),
        )
    };
    experiment(
        expr,
        (left_col, right_col),
        left_interval,
        right_interval,
        left_waited,
        right_waited,
        PropagationResult::Success,
    );
}

const SEEDS: [u64; 12] = [0, 1, 2, 3, 4, 12, 32, 314, 3124, 123, 123, 4123];

#[test]
fn testing_not_possible() {
    let left_col = col("left_watermark", 0);
    let right_col = col("right_watermark", 0);
    // left_watermark > right_watermark + 5
    let left_and_1 = bin(left_col.clone(), Operator::Plus, lit(5));
    let expr = bin(left_and_1, Operator::Gt, right_col.clone());
    experiment(
        expr,
        (left_col, right_col),
        (Some(10), Some(20)),
        (Some(100), None),
        (Some(10), Some(20)),
        (Some(100), None),
        PropagationResult::Infeasible,
    );
}

#[test]
fn case_1() {
    for seed in SEEDS {
        let left_col = col("left_watermark", 0);
        let right_col = col("right_watermark", 0);
        // left_watermark + 1 > right_watermark + 11 AND left_watermark + 3 < right_watermark + 33
        let expr = gen_conjunctive_numeric_expr(
            left_col.clone(),
            right_col.clone(),
            Operator::Plus,
            Operator::Plus,
            Operator::Plus,
            Operator::Plus,
            1,
            11,
            3,
            33,
        );
        // l > r + 10 AND r > l - 30
        let l_gt_r = 10;
        let r_gt_l = -30;
        generate_case(
            true,
            expr.clone(),
            left_col.clone(),
            right_col.clone(),
            seed,
            l_gt_r,
            r_gt_l,
        );
        // Descending tests
        // r < l - 10 AND l < r + 30
        let r_lt_l = -l_gt_r;
        let l_lt_r = -r_gt_l;
        generate_case(false, expr, left_col, right_col, seed, l_lt_r, r_lt_l);
    }
}

#[test]
fn case_2() {
    for seed in SEEDS {
        let left_col = col("left_watermark", 0);
        let right_col = col("right_watermark", 0);
        // left_watermark - 1 > right_watermark + 5 AND left_watermark + 3 < right_watermark + 10
        let expr = gen_conjunctive_numeric_expr(
            left_col.clone(),
            right_col.clone(),
            Operator::Minus,
            Operator::Plus,
            Operator::Plus,
            Operator::Plus,
            1,
            5,
            3,
            10,
        );
        // l > r + 6 AND r > l - 7
        let l_gt_r = 6;
        let r_gt_l = -7;
        generate_case(
            true,
            expr.clone(),
            left_col.clone(),
            right_col.clone(),
            seed,
            l_gt_r,
            r_gt_l,
        );
        // Descending tests
        // r < l - 6 AND l < r + 7
        let r_lt_l = -l_gt_r;
        let l_lt_r = -r_gt_l;
        generate_case(false, expr, left_col, right_col, seed, l_lt_r, r_lt_l);
    }
}

#[test]
fn case_3() {
    for seed in SEEDS {
        let left_col = col("left_watermark", 0);
        let right_col = col("right_watermark", 0);
        // left_watermark - 1 > right_watermark + 5 AND left_watermark - 3 < right_watermark + 10
        let expr = gen_conjunctive_numeric_expr(
            left_col.clone(),
            right_col.clone(),
            Operator::Minus,
            Operator::Plus,
            Operator::Minus,
            Operator::Plus,
            1,
            5,
            3,
            10,
        );
        // l > r + 6 AND r > l - 13
        let l_gt_r = 6;
        let r_gt_l = -13;
        generate_case(
            true,
            expr.clone(),
            left_col.clone(),
            right_col.clone(),
            seed,
            l_gt_r,
            r_gt_l,
        );
        // Descending tests
        // r < l - 6 AND l < r + 13
        let r_lt_l = -l_gt_r;
        let l_lt_r = -r_gt_l;
        generate_case(false, expr, left_col, right_col, seed, l_lt_r, r_lt_l);
    }
}

#[test]
fn case_4() {
    for seed in SEEDS {
        let left_col = col("left_watermark", 0);
        let right_col = col("right_watermark", 0);
        // left_watermark - 10 > right_watermark - 5 AND left_watermark - 3 < right_watermark + 10
        let expr = gen_conjunctive_numeric_expr(
            left_col.clone(),
            right_col.clone(),
            Operator::Minus,
            Operator::Minus,
            Operator::Minus,
            Operator::Plus,
            10,
            5,
            3,
            10,
        );
        // l > r + 5 AND r > l - 13
        let l_gt_r = 5;
        let r_gt_l = -13;
        generate_case(
            true,
            expr.clone(),
            left_col.clone(),
            right_col.clone(),
            seed,
            l_gt_r,
            r_gt_l,
        );
        // Descending tests
        // r < l - 5 AND l < r + 13
        let r_lt_l = -l_gt_r;
        let l_lt_r = -r_gt_l;
        generate_case(false, expr, left_col, right_col, seed, l_lt_r, r_lt_l);
    }
}

#[test]
fn case_5() {
    for seed in SEEDS {
        let left_col = col("left_watermark", 0);
        let right_col = col("right_watermark", 0);
        // left_watermark - 10 > right_watermark - 5 AND left_watermark - 30 < right_watermark - 3
        let expr = gen_conjunctive_numeric_expr(
            left_col.clone(),
            right_col.clone(),
            Operator::Minus,
            Operator::Minus,
            Operator::Minus,
            Operator::Minus,
            10,
            5,
            30,
            3,
        );
        // l > r + 5 AND r > l - 27
        let l_gt_r = 5;
        let r_gt_l = -27;
        generate_case(
            true,
            expr.clone(),
            left_col.clone(),
            right_col.clone(),
            seed,
            l_gt_r,
            r_gt_l,
        );
        // Descending tests
        // r < l - 5 AND l < r + 27
        let r_lt_l = -l_gt_r;
        let l_lt_r = -r_gt_l;
        generate_case(false, expr, left_col, right_col, seed, l_lt_r, r_lt_l);
    }
}

#[test]
fn test_gather_node_indices_dont_remove() {
    // Expression: a@0 + b@1 + 1 > a@0 - b@1, given a@0 + b@1.
    // Do not remove a@0 or b@1, only remove edges since a@0 - b@1 also
    // depends on leaf nodes a@0 and b@1.
    let left_expr = bin(
        bin(col("a", 0), Operator::Plus, col("b", 1)),
        Operator::Plus,
        lit(1),
    );
    let right_expr = bin(col("a", 0), Operator::Minus, col("b", 1));
    let expr = bin(left_expr, Operator::Gt, right_expr);
    let mut graph = ExprIntervalGraph::try_new(expr).unwrap();
    let leaf_node = bin(col("a", 0), Operator::Plus, col("b", 1));
    let prev_node_count = graph.node_count();
    graph.gather_node_indices(&[leaf_node]);
    let final_node_count = graph.node_count();
    assert_eq!(prev_node_count, final_node_count);
}

#[test]
fn test_gather_node_indices_remove() {
    // Expression: a@0 + b@1 + 1 > y@0 - z@1, given a@0 + b@1.
    // We expect to remove two nodes since we do not need a@ and b@.
    let left_expr = bin(
        bin(col("a", 0), Operator::Plus, col("b", 1)),
        Operator::Plus,
        lit(1),
    );
    let right_expr = bin(col("y", 0), Operator::Minus, col("z", 1));
    let expr = bin(left_expr, Operator::Gt, right_expr);
    let mut graph = ExprIntervalGraph::try_new(expr).unwrap();
    let leaf_node = bin(col("a", 0), Operator::Plus, col("b", 1));
    let prev_node_count = graph.node_count();
    graph.gather_node_indices(&[leaf_node]);
    let final_node_count = graph.node_count();
    assert_eq!(prev_node_count, final_node_count + 2);
}

#[test]
fn test_gather_node_indices_remove_one() {
    // Expression: a@0 + b@1 + 1 > a@0 - z@1, given a@0 + b@1.
    // We expect to remove one node since we still need a@ but not b@.
    let left_expr = bin(
        bin(col("a", 0), Operator::Plus, col("b", 1)),
        Operator::Plus,
        lit(1),
    );
    let right_expr = bin(col("a", 0), Operator::Minus, col("z", 1));
    let expr = bin(left_expr, Operator::Gt, right_expr);
    let mut graph = ExprIntervalGraph::try_new(expr).unwrap();
    let leaf_node = bin(col("a", 0), Operator::Plus, col("b", 1));
    let prev_node_count = graph.node_count();
    graph.gather_node_indices(&[leaf_node]);
    let final_node_count = graph.node_count();
    assert_eq!(prev_node_count, final_node_count + 1);
}

#[test]
fn test_gather_node_indices_cannot_provide() {
    // Expression: a@0 + 1 + b@1 > y@0 - z@1 -> provide a@0 + b@1
    // There is no exact node for a@0 + b@1 due to the binary tree
    // structure of the expression, so the returned handle stays the
    // sentinel and no node is pruned.
    let left_expr = bin(
        bin(col("a", 0), Operator::Plus, lit(1)),
        Operator::Plus,
        col("b", 1),
    );
    let right_expr = bin(col("y", 0), Operator::Minus, col("z", 1));
    let expr = bin(left_expr, Operator::Gt, right_expr);
    let mut graph = ExprIntervalGraph::try_new(expr).unwrap();
    let leaf_node = bin(col("a", 0), Operator::Plus, col("b", 1));
    let prev_node_count = graph.node_count();
    let handles = graph.gather_node_indices(&[leaf_node]);
    let final_node_count = graph.node_count();
    assert_eq!(prev_node_count, final_node_count);
    assert_eq!(handles[0].1, usize::MAX);
}
