# policy

SELinux policy manipulation, verified with Verus: the policy statement
language (tokens, grammar, help and error texts), extended-permission
(ioctl) ranges, and a policy database held as plain values that the
statements are applied to.

Layout of `src/`:

- `xperm.rs`: ioctl command ranges.
- `lexer.rs`, `token.rs`, `parser.rs`, `statement.rs`: the statement
  language, from text to tokens to commands, and carrying a statement out.
- `sepol.rs`: the policy database and its mathematical view.
- `sepol_impl.rs`: the operations on the database: rules, types,
  attributes, transitions, file system contexts.
- `sepol_print.rs`: the database as statement lines.
- `policy.rs`: `SePolicy`, the handle the statements work on.
- `properties.rs`: proved properties that relate the operations.
- `xperm_laws.rs`: what a list of ioctl ranges allows; a complement list
  allows every command except those it names.
- `grammar_laws.rs`: proved properties of tokens, ioctl sets, hexadecimal
  numbers and rule texts.

`app/` holds the file and console plumbing that Verus does not see.
