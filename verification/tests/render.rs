use set_solver::{solve, try_parse_args, Solution};

#[test]
fn render_sample() {
    let args = vec![
        "prog".to_string(),
        "100010202101122011210212011212210101102102112201".to_string(),
    ];
    let (items, set_size, variant_count) = try_parse_args(&args).unwrap();
    let text = solve(items, set_size, variant_count).render();
    assert_eq!(text, "1\t2\t5\n1\t6\t11\n2\t9\t10\n3\t5\t11\n4\t7\t9\n7\t10\t11");
}

#[test]
fn render_nothing() {
    assert_eq!(Solution(vec![]).render(), "");
}

#[test]
fn render_one_group() {
    assert_eq!(Solution(vec![vec![0, 1, 2]]).render(), "0\t1\t2");
    assert_eq!(Solution(vec![vec![5]]).render(), "5");
}

#[test]
fn render_large_indices() {
    let solution = Solution(vec![vec![0, 10, 109], vec![1000, 20304, usize::MAX]]);
    let expected = format!("0\t10\t109\n1000\t20304\t{}", usize::MAX);
    assert_eq!(solution.render(), expected);
}

#[test]
fn render_empty_group() {
    assert_eq!(Solution(vec![vec![], vec![3]]).render(), "\n3");
    assert_eq!(Solution(vec![vec![3], vec![]]).render(), "3\n");
}
