# first_rust

Collects the Solidity contracts of audit-competition repositories and prepares them
for local compilation. The library (`src/`) is verified with Verus; `app/` is the
program around it (headless browser, GitHub API requests, files, the Solidity compiler).

- `text`: split, join, trim, substring search over characters, stated over `Seq<char>`.
- `imports`: rewriting a downloaded contract's relative imports to point into the parent
  directory (the statement-gathering rewrite and the single-line rewrite), with laws.
- `listing`: the walk over a repository's contents listing (JSON read through serde_json):
  which files to fetch, which directories to descend into, or files grouped by repository.
- `repo_files`: the files found per repository, a map whose keys stay distinct.
- `audits`: the audit links of the contests page (HTML read through scraper) and the
  contents URL of each repository.
- `contracts`: local paths of contracts and the bytecodes collected for a repository.
