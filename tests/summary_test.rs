use learning_rust::summary::{NewsArticle, Summary, Tweet};

#[test]
fn article_summary_names_author() {
    let news = NewsArticle {
        headline: String::from("headline"),
        location: String::from("location"),
        author: String::from("author"),
        content: String::from("content"),
    };
    assert_eq!(news.summarize_author(), "@author");
    assert_eq!(news.summarize(), "(Read more from @author...)");
}

#[test]
fn tweet_summary_names_user() {
    let tweet = Tweet {
        username: String::from("tweet username"),
        content: String::from("tweet content"),
        reply: false,
        retweet: true,
    };
    assert_eq!(tweet.summarize_author(), "@tweet username");
    assert_eq!(tweet.summarize(), "(Read more from @tweet username...)");
}
