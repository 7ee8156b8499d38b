use textprims::markov::chain::MarkovChain;

#[test]
fn chain_test_interface() {
    let mc = MarkovChain::new();
    assert_eq!(mc.transition_sources(), 0)
}

#[test]
fn chain_test_train() {
    let mut mc = MarkovChain::new();
    mc.train("abcdefghijklmnopqrstuvwxyz");
    assert_eq!(mc.successors_of('a'), Some(vec!['b']));
    assert_eq!(mc.start_list(), vec!['a']);
    mc.train("xyzabc");
    assert_eq!(mc.successors_of('a'), Some(vec!['b', 'b']));
    assert_eq!(mc.start_list(), vec!['a', 'x']);
}

#[test]
fn test_generate() {
    let mut mc = MarkovChain::new();
    mc.train("abcdefghijklmnopqrstuvwxyz");
    mc.train("xyzabc");
    mc.train("abc def ghi jkl mno pqr stu vw xyza");
    let gen_1 = mc.generate_from_rand(6);
    assert_eq!(gen_1.len(), 6);
    let gen_2 = mc.generate_from('a', 3);
    assert_eq!(gen_2, "abc");
    let gen_2 = mc.generate_from('j', 3);
    assert_eq!(gen_2, "jkl");
    println!("{:?}", gen_1);
    println!("{:?}", gen_2);
}
