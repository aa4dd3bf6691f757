use everybody_codes::solutions::day1::Day1Solver;
use everybody_codes::solutions::day10::Day10Solver;
use everybody_codes::solutions::day2::Day2Solver;
use everybody_codes::solutions::day3::Day3Solver;
use everybody_codes::solutions::day4::Day4Solver;
use everybody_codes::solutions::day5::Day5Solver;
use everybody_codes::solutions::day6::Day6Solver;
use everybody_codes::solutions::day7::Day7Solver;
use everybody_codes::solutions::day8::Day8Solver;
use everybody_codes::solutions::day9::Day9Solver;
use everybody_codes::solutions::solution::{Input, Solver};

#[test]
fn day1_test_solve() {
    let p1 = "Vyrdax,Drakzyph,Fyrryn,Elarzris\n\nR3,L2,R3,L1";
    let p2 = "Vyrdax,Drakzyph,Fyrryn,Elarzris\n\nR3,L2,R3,L1";
    let p3 = "Vyrdax,Drakzyph,Fyrryn,Elarzris\n\nR3,L2,R3,L3";

    let input = Input { part1: p1.into(), part2: p2.into(), part3: p3.into() };

    let solution = Day1Solver.solve(input).unwrap();
    assert_eq!(solution.part1, "Fyrryn");
    assert_eq!(solution.part2, "Elarzris");
    assert_eq!(solution.part3, "Drakzyph");
}

#[test]
fn day2_test_solve() {
    let input = Input {
        part1: "A=[25,9]".into(),
        part2: "A=[35300,-64910]".into(),
        part3: "A=[35300,-64910]".into(),
    };

    let solution = Day2Solver.solve(input).unwrap();
    assert_eq!(solution.part1, "[357,862]");
    assert_eq!(solution.part2, "4076");
    assert_eq!(solution.part3, "406954");
}

#[test]
fn day3_test_input() {
    let input = Input {
        part1: "10,5,1,10,3,8,5,2,2".into(),
        part2: "4,51,13,64,57,51,82,57,16,88,89,48,32,49,49,2,84,65,49,43,9,13,2,3,75,72,63,48,61,14,40,77".into(),
        part3: "4,51,13,64,57,51,82,57,16,88,89,48,32,49,49,2,84,65,49,43,9,13,2,3,75,72,63,48,61,14,40,77".into(),
    };

    let solution = Day3Solver.solve(input).unwrap();

    assert_eq!(solution.part1, "29");
    assert_eq!(solution.part2, "781");
    assert_eq!(solution.part3, "3");
}

#[test]
fn day4_test_input() {
    let p1 = "102\n75\n50\n35\n13";
    let p3 = "5\n7|21\n18|36\n27|27\n10|50\n10|50\n11";

    let input = Input { part1: p1.into(), part2: p1.into(), part3: p3.into() };

    let solution = Day4Solver.solve(input).unwrap();

    assert_eq!(solution.part1, "15888");
    assert_eq!(solution.part2, "1274509803922");
    assert_eq!(solution.part3, "6818");
}

#[test]
fn day5_test_input() {
    let p2 = "1:2,4,1,1,8,2,7,9,8,6\n2:7,9,9,3,8,3,8,8,6,8\n3:4,7,6,9,1,8,3,7,2,2\n4:6,4,2,1,7,4,5,5,5,8\n5:2,9,3,8,3,9,5,2,1,4\n6:2,4,9,6,7,4,1,7,6,8\n7:2,3,7,6,2,2,4,1,4,2\n8:5,1,5,6,8,3,1,8,3,9\n9:5,7,7,3,7,2,3,8,6,7\n10:4,1,9,3,8,5,4,3,5,5";

    let p3 = "1:7,1,9,1,6,9,8,3,7,2\n2:6,1,9,2,9,8,8,4,3,1\n3:7,1,9,1,6,9,8,3,8,3\n4:6,1,9,2,8,8,8,4,3,1\n5:7,1,9,1,6,9,8,3,7,3\n6:6,1,9,2,8,8,8,4,3,5\n7:3,7,2,2,7,4,4,6,3,1\n8:3,7,2,2,7,4,4,6,3,7\n9:3,7,2,2,7,4,1,6,3,7";

    let input = Input {
        part1: "58:5,3,7,8,9,10,4,5,7,8,8".into(),
        part2: p2.into(),
        part3: p3.into(),
    };

    let solution = Day5Solver.solve(input).unwrap();

    assert_eq!(solution.part1, "581078");
    assert_eq!(solution.part2, "77053");
    assert_eq!(solution.part3, "260");
}

#[test]
fn day6_test_solve() {
    let input = Input {
        part1: "ABabACacBCbca".into(),
        part2: "ABabACacBCbca".into(),
        part3: "AABCBABCABCabcabcABCCBAACBCa".into(),
    };

    let solution = Day6Solver.solve(input).unwrap();
    assert_eq!(solution.part1, "5");
    assert_eq!(solution.part2, "11");
}

#[test]
fn day7_test_input() {
    let input_1 = "Oronris,Urakris,Oroneth,Uraketh\n\nr > a,i,o\ni > p,w\nn > e,r\no > n,m\nk > f,r\na > k\nU > r\ne > t\nO > r\nt > h";

    let input_2 = "Xanverax,Khargyth,Nexzeth,Helther,Braerex,Tirgryph,Kharverax\n\nr > v,e,a,g,y\na > e,v,x,r\ne > r,x,v,t\nh > a,e,v\ng > r,y\ny > p,t\ni > v,r\nK > h\nv > e\nB > r\nt > h\nN > e\np > h\nH > e\nl > t\nz > e\nX > a\nn > v\nx > z\nT > i";

    let input_3 = "Khara,Xaryt,Noxer,Kharax\n\nr > v,e,a,g,y\na > e,v,x,r,g\ne > r,x,v,t\nh > a,e,v\ng > r,y\ny > p,t\ni > v,r\nK > h\nv > e\nB > r\nt > h\nN > e\np > h\nH > e\nl > t\nz > e\nX > a\nn > v\nx > z\nT > i";

    let input = Input { part1: input_1.into(), part2: input_2.into(), part3: input_3.into() };

    let solution = Day7Solver.solve(input).unwrap();
    assert_eq!(solution.part1, "Oroneth");
    assert_eq!(solution.part2, "23");
    assert_eq!(solution.part3, "1154");
}

#[test]
fn day8_test_example() {
    let input_1 = "1,5,2,6,8,4,1,7,3";
    let input_2 = "1,5,2,6,8,4,1,7,3,5,7,8,2";
    let input_3 = "1,5,2,6,8,4,1,7,3";

    let input = Input { part1: input_1.into(), part2: input_2.into(), part3: input_3.into() };

    let solution = Day8Solver { points: 8 }.solve(input).unwrap();
    assert_eq!(solution.part1, "4");
    assert_eq!(solution.part2, "21");
    assert_eq!(solution.part3, "7");
}

#[test]
fn day9_test_input() {
    let input_1 = "1:CAAGCGCTAAGTTCGCTGGATGTGTGCCCGCG\n2:CTTGAATTGGGCCGTTTACCTGGTTTAACCAT\n3:CTAGCGCTGAGCTGGCTGCCTGGTTGACCGCG";

    let input_2 = "1:GCAGGCGAGTATGATACCCGGCTAGCCACCCC\n2:TCTCGCGAGGATATTACTGGGCCAGACCCCCC\n3:GGTGGAACATTCGAAAGTTGCATAGGGTGGTG\n4:GCTCGCGAGTATATTACCGAACCAGCCCCTCA\n5:GCAGCTTAGTATGACCGCCAAATCGCGACTCA\n6:AGTGGAACCTTGGATAGTCTCATATAGCGGCA\n7:GGCGTAATAATCGGATGCTGCAGAGGCTGCTG";

    let input_3 = "1:GCAGGCGAGTATGATACCCGGCTAGCCACCCC\n2:TCTCGCGAGGATATTACTGGGCCAGACCCCCC\n3:GGTGGAACATTCGAAAGTTGCATAGGGTGGTG\n4:GCTCGCGAGTATATTACCGAACCAGCCCCTCA\n5:GCAGCTTAGTATGACCGCCAAATCGCGACTCA\n6:AGTGGAACCTTGGATAGTCTCATATAGCGGCA\n7:GGCGTAATAATCGGATGCTGCAGAGGCTGCTG\n8:GGCGTAAAGTATGGATGCTGGCTAGGCACCCG";

    let input = Input { part1: input_1.into(), part2: input_2.into(), part3: input_3.into() };

    let solution = Day9Solver.solve(input).unwrap();
    assert_eq!(solution.part1, "414");
    assert_eq!(solution.part2, "1245");
    assert_eq!(solution.part3, "36")
}

#[test]
fn day10_test_example() {
    let input_1 = "...SSS.......\n.S......S.SS.\n..S....S...S.\n..........SS.\n..SSSS...S...\n.....SS..S..S\nSS....D.S....\nS.S..S..S....\n....S.......S\n.SSS..SS.....\n.........S...\n.......S....S\nSS.....S..S..";

    let input_2 = "...SSS##.....\n.S#.##..S#SS.\n..S.##.S#..S.\n.#..#S##..SS.\n..SSSS.#.S.#.\n.##..SS.#S.#S\nSS##.#D.S.#..\nS.S..S..S###.\n.##.S#.#....S\n.SSS.#SS..##.\n..#.##...S##.\n.#...#.S#...S\nSS...#.S.#S..";

    let input = Input { part1: input_1.into(), part2: input_2.into(), part3: "".into() };

    let solution = Day10Solver { simple_rounds: 3, windowed_rounds: 3 }.solve(input).unwrap();
    assert_eq!(solution.part1, "27");
    assert_eq!(solution.part2, "27");
}
