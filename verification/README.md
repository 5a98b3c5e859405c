# odin_palace

A verified reader for bank statements in the 1C client-bank exchange
format (`1CClientBankExchange`), and an anonymizer for such statement files.

- `src/parser`: telling the encoding (UTF-8, else Windows-1251), splitting
  the text into lines, the section state machine, and reading documents and
  account intervals from section attributes. `Parser::parse` is specified by
  `parse_with`/`parse_spec`, the hooks tied in through `SectionHook::permits`
  (`chain_permits`, `hooks_gave`; `lemma_parse_inert_hooks`,
  `lemma_erring_hook_stops`). Every statement read is well formed
  (`lemma_parse_well_formed`); reading follows the statement grammar
  (`lemma_run_grammar`, `lemma_run_finished_grammar`, `lemma_parse_grammar`);
  the statement only grows at its ends and holds what its reading added
  (`lemma_run_grows`, `lemma_run_header`, `lemma_run_contents`,
  `lemma_parse_contents`, `lemma_parse_warnings_ascending`); adding an
  account keeps its intervals ordered (`lemma_with_account_intervals`).
- `src/anonymizer.rs`: replacing names, account numbers, tax identifiers and
  purposes, specified by `anonymized`; the output shows only which lines
  share a name (`lemma_anonymize_names_hidden`), and pseudonyms are faithful
  within their class (`lemma_pseudonyms_faithful`). The shape of the output
  is given line by line (`lemma_line_structure`, `lemma_other_values`,
  `lemma_name_labels`, `lemma_masked_values`).
- `src/text.rs`, `src/value.rs`, `src/maps.rs`, `src/transcode.rs`: text
  handling, dates and decimals, insertion-ordered maps, and encodings.
- `app/main.rs`: the command line (`parse FILE`, `anon FILE`).
