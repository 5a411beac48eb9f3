use lazydict::words::Segmenter;

#[test]
fn cut_without_hmm() {
    let s = Segmenter::new();
    assert_eq!(s.cut("我们中出了一个叛徒"), vec!["我们", "中", "出", "了", "一个", "叛徒"]);
    assert_eq!(s.cut("abc网球拍卖会def"), vec!["abc", "网球", "拍卖会", "def"]);
}

#[test]
fn cut_joins_back_to_the_text() {
    let s = Segmenter::new();
    let text = "今天 天气不错, let's go!";
    let words = s.cut(text);
    assert_eq!(words.concat(), text);
    assert!(words.iter().all(|w| !w.is_empty()));
    assert!(s.cut("").is_empty());
}
