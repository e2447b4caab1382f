# lport

Lists listening ports on Linux and macOS, with the folder each server was
launched from; shows the details of a port; and takes a port back, making sure
that the process is really gone.

- `src/` is the library. It holds everything that is read, decided and laid
  out, written in Verus: each function states what it returns, and each
  statement is proved. The proof functions named `law_…` state what holds of
  the tool as a whole.
- `tests/` runs the library on concrete values.
- `app/` is the program: it runs `ss`, `lsof`, `ps`, `docker` and `kill`, reads
  `/proc`, asks the questions and prints.

Two things are taken on trust: that `String::push` appends a character, and
that `String::from_utf8_lossy` depends on the bytes alone and decodes valid
UTF-8.
